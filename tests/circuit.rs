use qecc::circuit::{Circuit, NodeType};
use qecc::parse::ParseError;

#[test]
fn test_empty_circuit() {
    assert!(Circuit::from_str("5\n").is_ok());
}

#[test]
fn test_single_qubit() {
    let circuit = Circuit::from_str("5\nh 0").unwrap();
    assert_eq!(circuit.qubits[0][0], b'h');
    let circuit = Circuit::from_str("5\nh 1").unwrap();
    assert_eq!(circuit.qubits[1][0], b'h');
}

#[test]
fn test_two_qubit() {
    let circuit = Circuit::from_str("5\ncx 0 1").unwrap();
    assert_eq!(circuit.qubits[0][0], b'c');
    assert_eq!(circuit.qubits[1][0], b'e');
    assert_eq!(circuit.cx[0][0], Some((1, 0)));
    assert_eq!(circuit.cx[1][0], Some((0, 0)));
}

#[test]
fn test_rz() {
    let circuit = Circuit::from_str("5\nrz 0 2").unwrap();
    assert_eq!(circuit.qubits[0][0], b'r');
    let angle: f64 = std::str::from_utf8(&circuit.parameters[0]).unwrap().parse().unwrap();
    assert_eq!(angle, 2.0);
}

#[test]
fn header_with_repetition_count() {
    let circuit = Circuit::from_str_native("3 7\ngpi 2\n").unwrap();
    assert_eq!(circuit.qubits.len(), 3);
    assert_eq!(circuit.approx_factor, 7);
    assert_eq!(circuit.qubits[2], vec![b'g']);
}

#[test]
fn native_gates_and_partners() {
    let circuit = Circuit::from_str_native("2 1\ngpi 0\ngpi2 1\nms 0 1\nrz 1 4\nrz 0").unwrap();
    assert_eq!(circuit.qubits[0], vec![b'g', b'm', b'r']);
    assert_eq!(circuit.qubits[1], vec![b'p', b'm', b'r']);
    assert_eq!(circuit.cx[0][1], Some((1, 1)));
    assert_eq!(circuit.cx[1][1], Some((0, 1)));
    assert_eq!(circuit.depths[1][2], Some(4));
    assert_eq!(circuit.depths[0][2], None);
    assert!(circuit.has_depths() == false);
}

#[test]
fn unknown_gate_names_token() {
    match Circuit::from_str_native("2 1\nfoo 0") {
        Err(ParseError::UnknownGate(t)) => assert_eq!(t, b"foo".to_vec()),
        other => panic!("unexpected {:?}", other.is_ok()),
    }
    match Circuit::from_str("2 1\nms 0 1") {
        Err(ParseError::UnknownGate(t)) => assert_eq!(t, b"ms".to_vec()),
        other => panic!("unexpected {:?}", other.is_ok()),
    }
}

#[test]
fn bad_number_names_token() {
    match Circuit::from_str_native("2 1\ngpi x1") {
        Err(ParseError::BadNumber(t)) => assert_eq!(t, b"x1".to_vec()),
        other => panic!("unexpected {:?}", other.is_ok()),
    }
    match Circuit::from_str_native("two 1\n") {
        Err(ParseError::BadNumber(t)) => assert_eq!(t, b"two".to_vec()),
        other => panic!("unexpected {:?}", other.is_ok()),
    }
}

#[test]
fn other_parse_errors() {
    assert!(matches!(Circuit::from_str_native(""), Err(ParseError::MissingHeader)));
    assert!(matches!(Circuit::from_str_native("  \ngpi 0"), Err(ParseError::MissingHeader)));
    assert!(matches!(Circuit::from_str_native("2 1\nms 0"), Err(ParseError::MissingOperand(_))));
    assert!(matches!(Circuit::from_str_native("2 1\ngpi 2"), Err(ParseError::QubitOutOfRange(2))));
    assert!(matches!(Circuit::from_str_native("2 1\nms 1 1"), Err(ParseError::SameQubit(1))));
    assert!(matches!(Circuit::from_str("2 1\nrz 0"), Err(ParseError::MissingOperand(_))));
}

#[test]
fn numbers_accept_plus_and_reject_overflow() {
    let circuit = Circuit::from_str_native("+2 1\ngpi +1").unwrap();
    assert_eq!(circuit.qubits[1], vec![b'g']);
    assert!(matches!(
        Circuit::from_str_native("99999999999999999999999 1\n"),
        Err(ParseError::BadNumber(_))
    ));
}

#[test]
fn blank_lines_are_skipped() {
    let circuit = Circuit::from_str_native("2 1\n\ngpi 0\n\r\nms 1 0\n").unwrap();
    assert_eq!(circuit.qubits[0], vec![b'g', b'm']);
    assert_eq!(circuit.qubits[1], vec![b'm']);
    assert_eq!(circuit.cx[1][0], Some((0, 1)));
}

#[test]
fn native_text_round_trip() {
    let circuit = Circuit::from_str_native("3 1\ngpi 0\nms 0 1\nrz 2 4").unwrap();
    let text = circuit.into_str().unwrap();
    assert_eq!(text, "3 1\ngpi 0\nms 0 1\nrz 2 4\n");
    let again = Circuit::from_str_native(&text).unwrap();
    assert_eq!(again.qubits, circuit.qubits);
    assert_eq!(again.cx, circuit.cx);
    assert_eq!(again.depths, circuit.depths);
    assert_eq!(again.approx_factor, circuit.approx_factor);
}

#[test]
fn new_circuit_is_empty() {
    let circuit = Circuit::new(4);
    assert_eq!(circuit.qubits.len(), 4);
    assert!(circuit.qubits.iter().all(|t| t.is_empty()));
    assert_eq!(circuit.approx_factor, 1);
}

#[test]
fn generic_gate_codes() {
    assert_eq!(NodeType::SDG.into_byte(), b'd');
    assert_eq!(NodeType::CX.into_byte(), b'c');
    let circuit = Circuit::from_str("1 1\nx 0\ny 0\nz 0\ns 0\nsdg 0").unwrap();
    assert_eq!(circuit.qubits[0], vec![b'x', b'y', b'z', b's', b'd']);
}

#[test]
fn native_well_formedness_check() {
    let mut circuit = Circuit::from_str_native("3 1\ngpi 0\nms 0 2\nrz 1 3").unwrap();
    assert!(circuit.is_native_wf());
    assert!(circuit.has_shape());
    circuit.cx[2][0] = Some((0, 0));
    assert!(!circuit.is_native_wf());
    let mut circuit = Circuit::from_str_native("2 1\ngpi 0").unwrap();
    circuit.qubits[1].push(b'x');
    assert!(!circuit.has_shape());
    assert!(!circuit.is_native_wf());
    let generic = Circuit::from_str("2 1\nh 0").unwrap();
    assert!(!generic.is_native_wf());
}

#[test]
fn into_str_keeps_repetition_and_refuses_crossing_gates() {
    let circuit = Circuit::from_str_native("2 7\nms 1 0\ngpi2 1\nms 0 1\n").unwrap();
    let text = circuit.into_str().unwrap();
    assert_eq!(text, "2 7\nms 0 1\ngpi2 1\nms 1 0\n");
    let again = Circuit::from_str_native(&text).unwrap();
    assert_eq!(again.approx_factor, 7);
    assert_eq!(again.qubits, circuit.qubits);
    assert_eq!(again.cx, circuit.cx);
    let mut crossing = Circuit::new(2);
    crossing.qubits[0] = vec![b'm', b'm'];
    crossing.qubits[1] = vec![b'm', b'm'];
    crossing.cx[0] = vec![Some((1, 1)), Some((1, 0))];
    crossing.cx[1] = vec![Some((0, 1)), Some((0, 0))];
    crossing.depths[0] = vec![None, None];
    crossing.depths[1] = vec![None, None];
    assert!(crossing.into_str().is_none());
}

#[test]
fn unknown_keyword_at_first_bad_line() {
    match Circuit::from_str("2 1\nfoo 0") {
        Err(ParseError::UnknownGate(t)) => assert_eq!(t, b"foo".to_vec()),
        other => panic!("unexpected {:?}", other.is_ok()),
    }
    match Circuit::from_str_native("1 1\nh 0") {
        Err(ParseError::UnknownGate(t)) => assert_eq!(t, b"h".to_vec()),
        other => panic!("unexpected {:?}", other.is_ok()),
    }
    match Circuit::from_str_native("2 1\ngpi 0\nbar 1\nbaz 0") {
        Err(ParseError::UnknownGate(t)) => assert_eq!(t, b"bar".to_vec()),
        other => panic!("unexpected {:?}", other.is_ok()),
    }
}
