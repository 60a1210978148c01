use qecc::circuit::Circuit;
use qecc::positions::QubitPositions;
use qecc::reliability::{check_terminated, count_overhead, error_class, schedule_len, Binom, ErrorClass};
use qecc::schedule::{SchedOp, Schedule};
use qecc::balanced::mark_scheduler;
use qecc::baseline::pmark_scheduler;
use qecc::overlapped::{choose_ntcf, ntcf_scheduler};
use qecc::scheduler::fits_limits;
use qecc::sector::{choose_shuttle, compute_current_sector, compute_phys, Shuttle};
use qecc::C7_QECTIME;

fn partners_symmetric(s: &Schedule) -> bool {
    for q in 0..s.qubits.len() {
        for i in 0..s.qubits[q].len() {
            if let Some((p, j)) = s.cx[q][i] {
                if s.cx[p][j] != Some((q, i))
                    || s.qubits[p][j] != SchedOp::Ms
                    || s.timestamp[p][j] != s.timestamp[q][i]
                {
                    return false;
                }
            }
        }
    }
    true
}

fn count(tape: &[SchedOp], op: SchedOp) -> usize {
    tape.iter().filter(|o| **o == op).count()
}

#[test]
fn empty_circuit_gets_one_terminal_correction() {
    let c = Circuit::from_str_native("1 1\n").unwrap();
    for (s, t) in [
        pmark_scheduler(&c, 2, 1),
        mark_scheduler(&c, 2, 1, C7_QECTIME),
        ntcf_scheduler(&c, 2, 1, C7_QECTIME),
    ] {
        assert_eq!(s.qubits, vec![vec![SchedOp::Correction]]);
        assert_eq!(s.timestamp, vec![vec![0]]);
        assert_eq!(s.cx, vec![vec![None]]);
        assert_eq!(t, 0);
    }
}

#[test]
fn single_gate_runs_under_every_policy() {
    let c = Circuit::from_str_native("1 1\ngpi 0").unwrap();
    for (s, _) in [
        pmark_scheduler(&c, 2, 1),
        mark_scheduler(&c, 2, 1, C7_QECTIME),
        ntcf_scheduler(&c, 2, 1, C7_QECTIME),
    ] {
        assert_eq!(count(&s.qubits[0], SchedOp::Gpi), 1);
        assert_eq!(*s.qubits[0].last().unwrap(), SchedOp::Correction);
        assert!(check_terminated(&s));
    }
}

#[test]
fn paired_gate_without_swap_in_baseline() {
    let c = Circuit::from_str_native("2 1\nms 0 1").unwrap();
    for sector_size in 2..5 {
        let (s, t) = pmark_scheduler(&c, sector_size, 3);
        for q in 0..2 {
            assert_eq!(count(&s.qubits[q], SchedOp::Ms), 1);
            assert_eq!(count(&s.qubits[q], SchedOp::Swap), 0);
            assert_eq!(count(&s.qubits[q], SchedOp::Correction), 1);
            assert_eq!(*s.qubits[q].last().unwrap(), SchedOp::Correction);
        }
        assert_eq!(s.qubits[0], vec![SchedOp::Ms, SchedOp::Shuttle, SchedOp::Correction]);
        assert_eq!(s.timestamp[0], vec![0, 5, 20]);
        assert_eq!(t, 20);
        assert_eq!(s.cx[0][0], Some((1, 0)));
        assert_eq!(s.cx[1][0], Some((0, 0)));
    }
}

fn sample_circuit() -> Circuit {
    Circuit::from_str_native(
        "6 1\ngpi 0\nms 0 5\ngpi2 3\nrz 2 3\nms 1 4\nms 2 3\ngpi 5\nms 0 2\nrz 4 2\nms 5 1\nms 3 4\n",
    )
    .unwrap()
}

#[test]
fn every_policy_keeps_partners_and_tails() {
    let c = sample_circuit();
    assert!(c.has_depths());
    assert!(fits_limits(&c, 2, 3, C7_QECTIME));
    for _ in 0..5 {
        for (s, t) in [
            mark_scheduler(&c, 2, 3, C7_QECTIME),
            ntcf_scheduler(&c, 2, 3, C7_QECTIME),
            pmark_scheduler(&c, 2, 3),
        ] {
            assert_eq!(s.qubits.len(), 6);
            assert!(partners_symmetric(&s));
            assert!(check_terminated(&s));
            for q in 0..6 {
                assert_eq!(*s.timestamp[q].last().unwrap(), t);
                assert!(s.timestamp[q].iter().all(|x| *x <= t));
                assert_eq!(s.qubits[q].len(), s.timestamp[q].len());
                let gates = count(&s.qubits[q], SchedOp::Ms);
                let expected = c.qubits[q].iter().filter(|b| **b == b'm').count();
                assert_eq!(gates, expected);
            }
        }
    }
}

#[test]
fn baseline_has_only_the_terminal_correction() {
    let c = sample_circuit();
    let (s, _) = pmark_scheduler(&c, 3, 2);
    for q in 0..6 {
        assert_eq!(count(&s.qubits[q], SchedOp::Correction), 1);
    }
}

#[test]
fn rotation_expands_into_rounds() {
    let c = Circuit::from_str_native("1 1\nrz 0 3").unwrap();
    for _ in 0..10 {
        let (s, _) = mark_scheduler(&c, 1, 1, C7_QECTIME);
        let rounds = count(&s.qubits[0], SchedOp::Measure);
        assert!(rounds >= 1 && rounds <= 3);
        assert_eq!(count(&s.qubits[0], SchedOp::MsAncilla), rounds);
        let start = s.qubits[0].iter().position(|o| *o == SchedOp::RusStep).unwrap();
        assert_eq!(
            &s.qubits[0][start..start + 5],
            &[SchedOp::RusStep, SchedOp::MsAncilla, SchedOp::RusStep, SchedOp::RusStep, SchedOp::Measure]
        );
        let t0 = s.timestamp[0][start];
        assert_eq!(
            &s.timestamp[0][start..start + 5],
            &[t0, t0 + 1, t0 + 6, t0 + 7, t0 + 8]
        );
    }
}

#[test]
fn sector_indices() {
    assert_eq!(compute_current_sector(0, 2), 0);
    assert_eq!(compute_current_sector(1, 2), 0);
    assert_eq!(compute_current_sector(2, 2), 1);
    assert_eq!(compute_current_sector(3, 2), 2);
    assert_eq!(compute_current_sector(5, 2), 3);
    assert_eq!(compute_phys(2, 0), (0, 2, true));
    assert_eq!(compute_phys(2, 1), (0, 1, true));
    assert_eq!(compute_phys(2, 2), (0, 1, false));
    assert_eq!(compute_phys(3, 5), (0, 2, true));
}

#[test]
fn shuttle_choice_priorities() {
    let mv = [false, true, false, true, false];
    let st = [false, false, true, false, true];
    assert_eq!(choose_shuttle(0, 5, &mv, &st, true), 3);
    assert_eq!(choose_shuttle(0, 5, &mv, &st, false), 1);
    let none = [false; 5];
    assert_eq!(choose_shuttle(1, 5, &none, &st, true), 3);
    assert_eq!(choose_shuttle(2, 5, &none, &st, false), 3);
    let all = [true; 5];
    assert_eq!(choose_shuttle(2, 5, &none, &all, true), 4);
    assert_eq!(choose_shuttle(2, 5, &none, &all, false), 2);
}

#[test]
fn shuttle_sweeps_back_and_forth() {
    let mut s = Shuttle::new(2);
    let mut seen = vec![];
    for _ in 0..6 {
        s.step();
        seen.push(s.offset);
    }
    assert_eq!(seen, vec![1, 2, 1, 0, 1, 2]);
}

#[test]
fn ntcf_choice_prefers_rotations() {
    let c = Circuit::from_str_native("4 1\ngpi 0\nrz 1 2\nms 2 3\n").unwrap();
    let p2l = vec![0, 1, 2, 3];
    let cur = vec![0, 0, 0, 0];
    assert_eq!(choose_ntcf(&vec![2, 1, 0], &p2l, &p2l, &cur, &c, 2), (1, 1));
    assert_eq!(choose_ntcf(&vec![3], &p2l, &p2l, &cur, &c, 2), (3, 0));
    let c2 = Circuit::from_str_native("4 1\ngpi 0\nms 2 3\n").unwrap();
    assert_eq!(choose_ntcf(&vec![3, 2], &p2l, &p2l, &cur, &c2, 2), (2, 2));
    assert_eq!(choose_ntcf(&vec![0, 1], &p2l, &p2l, &cur, &c2, 2), (0, 0));
}

#[test]
fn positions_stay_a_bijection() {
    let mut pos = QubitPositions::new(5);
    pos.swap_slots(0, 3);
    pos.swap_slots(3, 4);
    assert_eq!(pos.physical_to_logical, vec![3, 1, 2, 4, 0]);
    for l in 0..5 {
        assert_eq!(pos.physical_to_logical[pos.logical_to_physical[l]], l);
    }
    let mut seen = pos.physical_to_logical.clone();
    seen.sort();
    assert_eq!(seen, vec![0, 1, 2, 3, 4]);
}

#[test]
fn binomial_table() {
    let mut b = Binom::new();
    assert_eq!(b.compute(4, 2), 6);
    assert_eq!(b.compute(7, 0), 1);
    assert_eq!(b.compute(7, 7), 1);
    assert_eq!(b.compute(31, 3), 4495);
    assert_eq!(b.compute(62, 31), 465428353255261088);
    for n in 1..b.rows.len() {
        assert_eq!(b.rows[n][0], 1);
        assert_eq!(b.rows[n][n], 1);
        for k in 1..n {
            assert_eq!(b.rows[n][k], b.rows[n - 1][k - 1] + b.rows[n - 1][k]);
        }
    }
}

#[test]
fn error_classes_and_overhead() {
    assert_eq!(error_class(SchedOp::Gpi2), ErrorClass::SingleGate);
    assert_eq!(error_class(SchedOp::MsAncilla), ErrorClass::TwoQubitGate);
    assert_eq!(error_class(SchedOp::Swap), ErrorClass::Swap);
    assert!(ErrorClass::Swap.is_two_qubit());
    assert!(!ErrorClass::Shuttle.is_two_qubit());
    let mut s = Schedule::new(2);
    for op in [SchedOp::Gpi, SchedOp::Swap, SchedOp::Shuttle, SchedOp::Correction, SchedOp::Shuttle, SchedOp::Correction] {
        s.push_op(0, op, 0);
    }
    s.push_op(1, SchedOp::Correction, 0);
    assert_eq!(schedule_len(&s), Some(7));
    let o = count_overhead(&s);
    assert_eq!((o.shuttle_count, o.swap_count, o.qec_count), (2, 1, 3));
    let v: Vec<(usize, usize, usize)> = o.intervals.iter().map(|c| (c.ops, c.swaps, c.shuttles)).collect();
    assert_eq!(v, vec![(3, 1, 1), (1, 0, 1), (0, 0, 0)]);
    let mut bad = Schedule::new(1);
    bad.push_op(0, SchedOp::Gpi, 0);
    assert!(!check_terminated(&bad));
}

fn recorded_gates(tape: &[SchedOp]) -> Vec<u8> {
    tape.iter()
        .filter_map(|o| match o {
            SchedOp::Gpi => Some(b'g'),
            SchedOp::Gpi2 => Some(b'p'),
            SchedOp::Rz => Some(b'r'),
            SchedOp::Ms => Some(b'm'),
            _ => None,
        })
        .collect()
}

#[test]
fn overlapped_policy_runs_every_gate_in_order() {
    let c = sample_circuit();
    for _ in 0..5 {
        let (s, t) = ntcf_scheduler(&c, 2, 3, C7_QECTIME);
        assert!(t <= qecc::TIME_CEILING);
        for q in 0..6 {
            let expected: Vec<u8> = c.qubits[q].iter().copied().filter(|b| *b != b'r').collect();
            assert_eq!(recorded_gates(&s.qubits[q]), expected);
        }
    }
}

#[test]
fn policies_run_gates_in_circuit_order() {
    let c = sample_circuit();
    let (s, _) = pmark_scheduler(&c, 2, 3);
    for q in 0..6 {
        assert_eq!(recorded_gates(&s.qubits[q]), c.qubits[q]);
    }
    let (s, _) = mark_scheduler(&c, 2, 3, C7_QECTIME);
    for q in 0..6 {
        let expected: Vec<u8> = c.qubits[q].iter().copied().filter(|b| *b != b'r').collect();
        let got = recorded_gates(&s.qubits[q]);
        assert_eq!(&expected[..got.len()], &got[..]);
    }
}

#[test]
fn crossing_gates_leave_nothing_ready() {
    let mut c = Circuit::new(2);
    c.qubits[0] = vec![b'm', b'm'];
    c.qubits[1] = vec![b'm', b'm'];
    c.cx[0] = vec![Some((1, 1)), Some((1, 0))];
    c.cx[1] = vec![Some((0, 1)), Some((0, 0))];
    c.depths[0] = vec![None, None];
    c.depths[1] = vec![None, None];
    assert!(c.is_native_wf());
    let (s, t) = pmark_scheduler(&c, 2, 1);
    assert_eq!(t, 0);
    assert_eq!(s.qubits[0], vec![SchedOp::Correction]);
    assert_eq!(s.qubits[1], vec![SchedOp::Correction]);
}

#[test]
fn parsed_circuits_run_to_the_end() {
    let c = sample_circuit();
    for _ in 0..3 {
        let (s, t) = mark_scheduler(&c, 2, 3, C7_QECTIME);
        assert!(t <= qecc::TIME_CEILING);
        for q in 0..6 {
            let expected: Vec<u8> = c.qubits[q].iter().copied().filter(|b| *b != b'r').collect();
            assert_eq!(recorded_gates(&s.qubits[q]), expected);
        }
        let (s, _) = pmark_scheduler(&c, 3, 2);
        for q in 0..6 {
            assert_eq!(recorded_gates(&s.qubits[q]), c.qubits[q]);
        }
    }
}

#[test]
fn overlapped_rotation_rounds_end_in_correction() {
    let c = Circuit::from_str_native("1 1\nrz 0 3\ngpi 0").unwrap();
    for _ in 0..10 {
        let (s, _) = ntcf_scheduler(&c, 1, 1, C7_QECTIME);
        let tape = &s.qubits[0];
        let first = tape.iter().position(|o| *o == SchedOp::RusStep).unwrap();
        let mut k = first;
        while tape[k] == SchedOp::RusStep {
            assert_eq!(
                &tape[k..k + 5],
                &[SchedOp::RusStep, SchedOp::MsAncilla, SchedOp::RusStep, SchedOp::RusStep, SchedOp::Measure]
            );
            k += 5;
        }
        assert_eq!(tape[k], SchedOp::Correction);
        assert!((k - first) / 5 >= 1 && (k - first) / 5 <= 3);
    }
}

#[test]
fn timestamps_never_go_back() {
    let c = sample_circuit();
    for (s, _) in [
        mark_scheduler(&c, 2, 3, C7_QECTIME),
        ntcf_scheduler(&c, 2, 3, C7_QECTIME),
        pmark_scheduler(&c, 2, 3),
    ] {
        for q in 0..6 {
            assert!(s.timestamp[q].windows(2).all(|w| w[0] <= w[1]));
        }
    }
}
