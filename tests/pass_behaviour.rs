use quantum_compiler_demo::{compile, Angle, Circuit, CircuitError, Gate, ANGLE_TOLERANCE};

fn circuit(n: usize, gates: &[Gate]) -> Circuit {
    let mut c = Circuit::new(n);
    for g in gates {
        c.add_gate(*g).unwrap();
    }
    c
}

fn optimized(n: usize, gates: &[Gate]) -> Vec<Gate> {
    compile(&circuit(n, gates)).gates
}

fn turn_units(num: u64, shift: u32) -> Angle {
    Angle { units: num << shift }
}

#[test]
fn mixed_sequence_optimizes_exactly() {
    let out = optimized(2, &[Gate::H(0), Gate::T(0), Gate::T(0), Gate::CNOT(0, 1)]);
    assert_eq!(out, vec![Gate::H(0), Gate::S(0), Gate::CNOT(0, 1)]);
}

#[test]
fn self_inverse_pairs_cancel_on_any_qubit() {
    for q in 0..4 {
        for g in [Gate::X(q), Gate::Y(q), Gate::Z(q), Gate::H(q)] {
            assert_eq!(optimized(4, &[g, g]), vec![]);
        }
    }
}

#[test]
fn different_paulis_do_not_cancel() {
    assert_eq!(optimized(1, &[Gate::X(0), Gate::Y(0)]), vec![Gate::X(0), Gate::Y(0)]);
}

#[test]
fn three_s_gates_leave_z_then_s() {
    let out = optimized(1, &[Gate::S(0), Gate::S(0), Gate::S(0)]);
    assert_eq!(out, vec![Gate::Z(0), Gate::S(0)]);
}

#[test]
fn fused_s_cancels_with_following_z() {
    assert_eq!(optimized(1, &[Gate::S(0), Gate::S(0), Gate::Z(0)]), vec![]);
}

#[test]
fn four_t_gates_leave_two_s_and_second_pass_fuses_them() {
    let once = compile(&circuit(1, &[Gate::T(0), Gate::T(0), Gate::T(0), Gate::T(0)]));
    assert_eq!(once.gates, vec![Gate::S(0), Gate::S(0)]);
    let twice = compile(&once);
    assert_eq!(twice.gates, vec![Gate::Z(0)]);
}

#[test]
fn settled_input_is_a_fixed_point() {
    let gates = [Gate::H(0), Gate::X(1), Gate::CNOT(0, 1), Gate::Rz(1, turn_units(1, 60))];
    let once = compile(&circuit(2, &gates));
    assert_eq!(once.gates, gates.to_vec());
    let twice = compile(&once);
    assert_eq!(twice.gates, once.gates);
    assert_eq!(twice.num_qubits, 2);
}

#[test]
fn cancellation_skips_gates_on_other_qubits() {
    let out = optimized(2, &[Gate::X(0), Gate::H(1), Gate::X(0)]);
    assert_eq!(out, vec![Gate::H(1)]);
}

#[test]
fn fusion_stays_at_the_first_gate_position() {
    let out = optimized(2, &[Gate::T(0), Gate::H(1), Gate::T(0), Gate::X(1)]);
    assert_eq!(out, vec![Gate::S(0), Gate::H(1), Gate::X(1)]);
}

#[test]
fn interleaving_disjoint_qubits_keeps_per_qubit_outcome() {
    let a = optimized(3, &[Gate::X(0), Gate::T(1), Gate::X(0), Gate::T(1), Gate::H(2), Gate::S(0)]);
    let b = optimized(3, &[Gate::T(1), Gate::H(2), Gate::X(0), Gate::T(1), Gate::X(0), Gate::S(0)]);
    let on = |v: &Vec<Gate>, q: usize| -> Vec<Gate> {
        v.iter()
            .copied()
            .filter(|g| match *g {
                Gate::X(p) | Gate::T(p) | Gate::S(p) | Gate::H(p) => p == q,
                _ => false,
            })
            .collect()
    };
    for q in 0..3 {
        assert_eq!(on(&a, q), on(&b, q));
    }
    assert_eq!(on(&a, 0), vec![Gate::S(0)]);
    assert_eq!(on(&a, 1), vec![Gate::S(1)]);
    assert_eq!(on(&a, 2), vec![Gate::H(2)]);
}

#[test]
fn cnot_with_other_target_replaces_the_control_record() {
    let gates = [Gate::CNOT(0, 1), Gate::CNOT(0, 2), Gate::CNOT(0, 1)];
    assert_eq!(optimized(3, &gates), gates.to_vec());
}

#[test]
fn cnot_does_not_update_its_target_record() {
    // The record of the target qubit is left as it was, so the S gates on
    // qubit 1 still fuse across the CNOT.
    let out = optimized(2, &[Gate::S(1), Gate::CNOT(0, 1), Gate::S(1)]);
    assert_eq!(out, vec![Gate::Z(1), Gate::CNOT(0, 1)]);
}

#[test]
fn reversed_cnot_does_not_cancel() {
    let gates = [Gate::CNOT(0, 1), Gate::CNOT(1, 0)];
    assert_eq!(optimized(2, &gates), gates.to_vec());
}

#[test]
fn swap_on_other_pair_does_not_cancel() {
    let gates = [Gate::SWAP(0, 1), Gate::SWAP(0, 2)];
    assert_eq!(optimized(3, &gates), gates.to_vec());
}

#[test]
fn rotations_wrap_around_a_full_turn() {
    // Three quarters of a turn and a half turn make a quarter turn.
    let out = optimized(1, &[Gate::Rz(0, turn_units(3, 62)), Gate::Rz(0, turn_units(1, 63))]);
    assert_eq!(out, vec![Gate::Rz(0, turn_units(1, 62))]);
}

#[test]
fn rotation_within_tolerance_of_zero_cancels() {
    let small = Angle { units: ANGLE_TOLERANCE - 1 };
    let zero = Angle { units: 0 };
    assert_eq!(optimized(1, &[Gate::Rx(0, small), Gate::Rx(0, zero)]), vec![]);
    let edge = Angle { units: ANGLE_TOLERANCE };
    assert_eq!(optimized(1, &[Gate::Rx(0, edge), Gate::Rx(0, zero)]), vec![Gate::Rx(0, edge)]);
}

#[test]
fn rotation_within_tolerance_of_full_turn_cancels() {
    let near = Angle { units: u64::MAX - (ANGLE_TOLERANCE - 2) };
    let zero = Angle { units: 0 };
    assert_eq!(optimized(1, &[Gate::Ry(0, near), Gate::Ry(0, zero)]), vec![]);
    let edge = Angle { units: u64::MAX - (ANGLE_TOLERANCE - 1) };
    assert_eq!(optimized(1, &[Gate::Ry(0, edge), Gate::Ry(0, zero)]), vec![Gate::Ry(0, edge)]);
}

#[test]
fn rotations_of_different_axes_do_not_fuse() {
    let a = turn_units(1, 60);
    let gates = [Gate::Rx(0, a), Gate::Ry(0, a), Gate::Rz(0, a)];
    assert_eq!(optimized(1, &gates), gates.to_vec());
}

#[test]
fn angle_sum_and_identity() {
    assert_eq!(turn_units(1, 63).sum(turn_units(1, 63)), Angle { units: 0 });
    assert!(Angle { units: 0 }.is_identity());
    assert!(!turn_units(1, 62).is_identity());
}

#[test]
fn compile_leaves_input_unchanged() {
    let c = circuit(1, &[Gate::X(0), Gate::X(0)]);
    let out = compile(&c);
    assert_eq!(c.gates, vec![Gate::X(0), Gate::X(0)]);
    assert_eq!(out.num_qubits, 1);
    assert!(out.gates.is_empty());
}

#[test]
fn out_of_range_qubit_is_refused() {
    let mut c = circuit(2, &[Gate::H(0)]);
    assert_eq!(c.add_gate(Gate::X(2)), Err(CircuitError::OutOfRangeQubit));
    assert_eq!(c.add_gate(Gate::Rz(5, Angle { units: 1 })), Err(CircuitError::OutOfRangeQubit));
    assert_eq!(c.add_gate(Gate::CNOT(0, 2)), Err(CircuitError::OutOfRangeQubit));
    assert_eq!(c.add_gate(Gate::SWAP(3, 3)), Err(CircuitError::OutOfRangeQubit));
    assert_eq!(c.gates, vec![Gate::H(0)]);
    assert_eq!(c.num_qubits, 2);
}

#[test]
fn degenerate_two_qubit_gate_is_refused() {
    let mut c = circuit(2, &[Gate::H(0)]);
    assert_eq!(c.add_gate(Gate::CNOT(1, 1)), Err(CircuitError::DegenerateTwoQubitGate));
    assert_eq!(c.add_gate(Gate::SWAP(0, 0)), Err(CircuitError::DegenerateTwoQubitGate));
    assert_eq!(c.gates, vec![Gate::H(0)]);
    assert_eq!(c.add_gate(Gate::SWAP(0, 1)), Ok(()));
    assert_eq!(c.gates, vec![Gate::H(0), Gate::SWAP(0, 1)]);
}

#[test]
fn validity_check_reports_bad_gates() {
    let mut c = circuit(2, &[Gate::H(0), Gate::CNOT(0, 1)]);
    assert!(c.is_valid());
    c.gates.push(Gate::X(2));
    assert!(!c.is_valid());
    let mut d = Circuit::new(2);
    d.gates.push(Gate::SWAP(1, 1));
    assert!(!d.is_valid());
}
