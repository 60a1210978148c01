//! The balanced lock-step policy: execution and correction sectors take
//! turns, with a correction on every correction slot each round.
use vstd::prelude::*;
use std::collections::VecDeque;
use crate::circuit::{Circuit, MS, GPI, GPI2, ROT, MAX_OPS, gate_seq, lemma_gate_seq_step};
use crate::frontier::{
    covered, pairs_in_step, ready_at, ordered, lemma_stuck_finished, lemma_covered_drop,
    lemma_covered_single, lemma_covered_pair, lemma_covered_requeue, lemma_queue_keeps,
    lemma_pairs_single, lemma_pairs_pair,
    entry_in_range, entries_in_range, cursors_ok, done, lemma_done_bounded, start_cursors,
    seed_frontier, advance,
};
use crate::positions::QubitPositions;
use crate::schedule::{Schedule, SchedOp, gates_of, lemma_gates_push};
use crate::sector::{
    is_horizontal_at, lemma_after_correction_slot,
    Shuttle, params_ok, choose_shuttle, compute_qec_max_shift, compute_current_sector, compute_phys,
    lemma_sector_below,
};
use crate::scheduler::{
    work_match, works_prefix, works_all, lemma_work_touch, lemma_work_step, lemma_work_rotation,
    lemma_work_reround, lemma_push_all_keeps_work, lemma_work_prefix, round_set, rus_ops,
    lemma_work_push, lemma_work_at,
    simple_gates,
    no_instances, empty_schedule_at_zero, lemma_empty_result,
    runs_all,
    seq_max, lemma_seq_max_ge, lemma_stamp,
    MAX_OP_TIME, schedule_ok, gates_match, runs_prefix, lemma_record, lemma_push_all_keeps_match,
    lemma_match_touch, lemma_match_prefix, single_op, single_op_spec, filled, max_time,
    mark_move_stop, swap_slots_at, apply_non_clifford,
};
use crate::{SQ_TIME, TQ_TIME, SWAP_TIME, SHUTTLE_TIME, TIME_CEILING, MAX_QEC_TIME};

verus! {

/// A bound on the time one round of the balanced policy takes on a circuit
/// of single-qubit gates only.
pub const ROUND_BOUND: u64 = 5_000_000_000;

/// Balanced lock-step scheduler: blocks of `sector_size` execution slots and
/// one correction slot; single-qubit gates run in execution sectors, rotations
/// in correction sectors, two-qubit gates when both qubits share a sector;
/// every round each correction slot's qubit gets a correction lasting
/// `qec_time`, and every tape a final correction.
pub fn mark_scheduler(
    circuit: &Circuit,
    sector_size: usize,
    empty_sector: usize,
    qec_time: u64,
) -> (r: (Schedule, u64))
    requires
        circuit.wf_native(),
        circuit.depths_ok(),
        circuit.total_ops() <= MAX_OPS,
        params_ok(circuit.num_qubits(), sector_size as int, empty_sector as int),
        qec_time <= MAX_QEC_TIME,
    ensures
        schedule_ok(circuit, r),
        runs_prefix(circuit, &r.0, false),
        works_prefix(circuit, &r.0),
        r.1 <= TIME_CEILING && ordered(circuit) ==> works_all(circuit, &r.0),
        no_instances(circuit) ==> empty_schedule_at_zero(r),
        simple_gates(circuit) ==> r.1 <= 2 * ROUND_BOUND <= TIME_CEILING,
        r.1 <= TIME_CEILING && ordered(circuit) ==> runs_all(circuit, &r.0, false),
{
    let num_qubits = circuit.qubits.len();
    let ghost n = num_qubits as int;
    let ghost total = circuit.total_ops();
    let mut sched = Schedule::new(num_qubits);
    let mut pos = QubitPositions::new(num_qubits);
    let max_shift = compute_qec_max_shift(num_qubits, sector_size, empty_sector);
    let mut state = Shuttle::new(max_shift);
    let sector_num = (num_qubits + max_shift) / (sector_size + 1) * 2 + 1;
    proof {
        let x = max_shift + num_qubits;
        let d = sector_size + 1;
        vstd::arithmetic::div_mod::lemma_fundamental_div_mod(x, d);
        vstd::arithmetic::div_mod::lemma_mod_pos_bound(x, d);
        vstd::arithmetic::div_mod::lemma_div_pos_is_pos(x, d);
        let a = x / d;
        assert(a * 2 <= x) by (nonlinear_arith)
            requires
                x == d * a + x % d,
                x % d >= 0,
                a >= 0,
                d >= 2,
        ;
    }
    let mut start_time: u64 = 0;
    let mut current_nodes = start_cursors(circuit);
    let mut frontier = seed_frontier(circuit);
    let ghost mut rs: spec_fn(int, int) -> nat = |q: int, i: int| 0nat;
    proof {
        assert forall|q: int| 0 <= q < n implies #[trigger] crate::scheduler::work_of(sched.tape(q))
            == crate::scheduler::expand(circuit, q, current_nodes@[q] as int, rs)
            && crate::scheduler::rounds_ok(circuit, q, current_nodes@[q] as int, rs) by {
            assert(sched.tape(q).len() == 0);
            assert(sched.tape(q) =~= Seq::<SchedOp>::empty());
        }
    }
    while frontier.len() > 0
        invariant_except_break
            start_time <= TIME_CEILING,
        invariant
            n == num_qubits == circuit.num_qubits(),
            total == circuit.total_ops() <= MAX_OPS,
            circuit.wf_native(),
            circuit.depths_ok(),
            params_ok(n, sector_size as int, empty_sector as int),
            qec_time <= MAX_QEC_TIME,
            sched.wf(),
            sched.num_qubits() == n,
            pos.wf(),
            pos.len() == n,
            cursors_ok(circuit, current_nodes@),
            gates_match(circuit, &sched, current_nodes@, false),
            work_match(circuit, &sched, current_nodes@, rs),
            entries_in_range(circuit, frontier@),
            state.wf(),
            state.max_shift == max_shift,
            max_shift <= 2 * crate::sector::MAX_SECTOR_SIZE * crate::sector::MAX_EMPTY_SECTORS,
            sector_num == (n + max_shift) / (sector_size as int + 1) * 2 + 1,
            sector_num <= n + max_shift + 1,
            sched.times_le(start_time as int),
            covered(circuit, current_nodes@, frontier@),
            pairs_in_step(circuit, current_nodes@),
            no_instances(circuit) ==> start_time == 0 && forall|q: int|
                0 <= q < n ==> #[trigger] sched.tape(q).len() == 0,
            simple_gates(circuit) ==> forall|l: int| 0 <= l < n ==> #[trigger] pos.slot(l) == l,
            simple_gates(circuit) ==> start_time <= 2 * ROUND_BOUND,
            simple_gates(circuit) && frontier@.len() > 0 ==> (state.offset == 0 && start_time == 0) || (
            state.offset == 1 && start_time <= ROUND_BOUND && forall|k: int|
                0 <= k < frontier@.len() ==> #[trigger] is_horizontal_at(
                    frontier@[k].0 + 1,
                    sector_size as int,
                )),
        ensures
            start_time <= TIME_CEILING ==> frontier@.len() == 0,
        decreases TIME_CEILING - start_time,
    {
        proof {
            if no_instances(circuit) {
                assert(entry_in_range(circuit, frontier@[0]));
                assert(false);
            }
        }
        let mut new_frontier: VecDeque<(usize, usize)> = VecDeque::new();
        let mut sector_time = filled(start_time, sector_num);
        let ghost done0 = done(current_nodes@);
        proof {
            lemma_done_bounded(circuit, current_nodes@);
        }
        while frontier.len() > 0
            invariant
                n == num_qubits == circuit.num_qubits(),
                total == circuit.total_ops() <= MAX_OPS,
                circuit.wf_native(),
                circuit.depths_ok(),
                params_ok(n, sector_size as int, empty_sector as int),
                sched.wf(),
                sched.num_qubits() == n,
                pos.wf(),
                pos.len() == n,
                cursors_ok(circuit, current_nodes@),
                gates_match(circuit, &sched, current_nodes@, false),
            work_match(circuit, &sched, current_nodes@, rs),
                entries_in_range(circuit, frontier@),
                entries_in_range(circuit, new_frontier@),
                state.wf(),
                state.max_shift == max_shift,
                max_shift <= 2 * crate::sector::MAX_SECTOR_SIZE * crate::sector::MAX_EMPTY_SECTORS,
                sector_num == (n + max_shift) / (sector_size as int + 1) * 2 + 1,
                sector_time@.len() == sector_num,
                start_time <= TIME_CEILING,
                sched.times_le(seq_max(sector_time@)),
                covered(circuit, current_nodes@, frontier@ + new_frontier@),
                pairs_in_step(circuit, current_nodes@),
                simple_gates(circuit) ==> forall|l: int| 0 <= l < n ==> #[trigger] pos.slot(l) == l,
                simple_gates(circuit) ==> forall|k: int|
                    0 <= k < sector_num ==> #[trigger] sector_time@[k] <= start_time + (done(
                        current_nodes@,
                    ) - done0),
                simple_gates(circuit) && state.offset == 0 ==> forall|k: int|
                    0 <= k < new_frontier@.len() ==> !#[trigger] is_horizontal_at(
                        new_frontier@[k].0 as int,
                        sector_size as int,
                    ),
                simple_gates(circuit) && state.offset == 1 ==> new_frontier@.len() == 0 && forall|k: int|
                    0 <= k < frontier@.len() ==> #[trigger] is_horizontal_at(
                        frontier@[k].0 + 1,
                        sector_size as int,
                    ),
                0 <= done0 <= done(current_nodes@) <= total,
                forall|k: int|
                    0 <= k < sector_num ==> start_time <= #[trigger] sector_time@[k] <= start_time
                        + (done(current_nodes@) - done0) * MAX_OP_TIME,
            decreases 2 * (total - done(current_nodes@)) + frontier@.len(),
        {
            proof {
                assert(entry_in_range(circuit, frontier@[0]));
                lemma_done_bounded(circuit, current_nodes@);
            }
            let ghost a = frontier@;
            let ghost b = new_frontier@;
            let (qubit_index, node_index) = frontier.pop_front().unwrap();
            proof {
                assert((a + b).subrange(1, (a + b).len() as int) =~= frontier@ + new_frontier@);
            }
            // Entries are queued while their qubit's cursor is on them; an
            // entry that has fallen behind its cursor is dropped.
            if current_nodes[qubit_index] != node_index {
                proof {
                    lemma_covered_drop(circuit, current_nodes@, a + b);
                }
                continue;
            }
            let len_q = circuit.qubits[qubit_index].len();
            proof {
                assert(circuit.cx@[qubit_index as int]@.len() == circuit.tape(
                    qubit_index as int,
                ).len());
                assert(circuit.depths@[qubit_index as int]@.len() == circuit.tape(
                    qubit_index as int,
                ).len());
                assert(circuit.native_entry_ok(qubit_index as int, node_index as int));
                assert(0 <= pos.slot(qubit_index as int) < n);
                lemma_sector_below(
                    pos.slot(qubit_index as int) + state.offset,
                    n + max_shift,
                    sector_size as int,
                );
            }
            let node = circuit.qubits[qubit_index][node_index];
            let current_sector = compute_current_sector(
                pos.logical_to_physical[qubit_index] + state.offset,
                sector_size,
            );
            let ghost s0 = sched;
            let ghost cur0 = current_nodes@;
            let ghost st0 = sector_time@;
            proof {
                lemma_seq_max_ge(st0, current_sector as int);
            }
            if node == GPI || node == GPI2 {
                if current_sector % 2 == 0 {
                    let t = sector_time[current_sector];
                    sched.push_op(qubit_index, single_op(node), t);
                    sector_time.set(current_sector, t + SQ_TIME);
                    proof {
                        lemma_stamp(&s0, &sched, st0, current_sector as int, sector_time@[current_sector as int]);
                    }
                    advance(circuit, qubit_index, &mut current_nodes, &mut frontier);
                    proof {
                        lemma_done_bounded(circuit, current_nodes@);
                        lemma_record(
                            circuit.tape(qubit_index as int),
                            s0.tape(qubit_index as int),
                            single_op_spec(node),
                            node_index as int,
                            false,
                        );
                        lemma_match_touch(
                            circuit,
                            &s0,
                            &sched,
                            cur0,
                            current_nodes@,
                            qubit_index as int,
                            qubit_index as int,
                            false,
                        );
                        if node != ROT {
                            lemma_work_at(circuit, &s0, cur0, rs, qubit_index as int);
                            lemma_work_step(
                                circuit,
                                s0.tape(qubit_index as int),
                                single_op_spec(node),
                                qubit_index as int,
                                node_index as int,
                                rs,
                            );
                            lemma_work_touch(
                                circuit,
                                &s0,
                                &sched,
                                cur0,
                                current_nodes@,
                                rs,
                                qubit_index as int,
                                qubit_index as int,
                            );
                        }
                        lemma_queue_keeps(a, b, frontier@, new_frontier@);
                        if ready_at(circuit, current_nodes@, qubit_index as int, current_nodes@[qubit_index as int] as int) {
                            assert((frontier@ + new_frontier@)[frontier@.len() - 1] == (qubit_index, current_nodes@[qubit_index as int]));
                        }
                        lemma_covered_single(circuit, cur0, a + b, frontier@ + new_frontier@, qubit_index as int);
                        lemma_pairs_single(circuit, cur0, qubit_index as int);
                    }
                } else {
                    new_frontier.push_back((qubit_index, node_index));
                    proof {
                        lemma_covered_requeue(circuit, current_nodes@, a, b);
                    }
                }
            } else if node == ROT {
                if current_sector % 2 == 1 {
                    proof {
                        assert(circuit.depths_ok() && circuit.tape(qubit_index as int)[node_index as int] == ROT);
                    }
                    let depth = circuit.depths[qubit_index][node_index].unwrap();
                    let mut t = sector_time[current_sector];
                    apply_non_clifford(&mut sched, qubit_index, depth, &mut t);
                    proof {
                        let k = choose|k: nat|
                            {
                                &&& if depth == 0 {
                                    k == 0
                                } else {
                                    1 <= k <= depth
                                }
                                &&& sched.tape(qubit_index as int) == s0.tape(qubit_index as int)
                                    + rus_ops(k)
                            };
                        lemma_work_at(circuit, &s0, cur0, rs, qubit_index as int);
                        lemma_work_reround(circuit, &s0, cur0, rs, qubit_index as int, node_index as int, k);
                        lemma_work_rotation(circuit, s0.tape(qubit_index as int), qubit_index as int, node_index as int, rs, k);
                        rs = round_set(rs, qubit_index as int, node_index as int, k);
                    }
                    sector_time.set(current_sector, t);
                    proof {
                        lemma_stamp(&s0, &sched, st0, current_sector as int, sector_time@[current_sector as int]);
                    }
                    advance(circuit, qubit_index, &mut current_nodes, &mut frontier);
                    proof {
                        lemma_done_bounded(circuit, current_nodes@);
                        lemma_gate_seq_step(circuit.tape(qubit_index as int), node_index as int, false);
                        lemma_work_touch(
                            circuit,
                            &s0,
                            &sched,
                            cur0,
                            current_nodes@,
                            rs,
                            qubit_index as int,
                            qubit_index as int,
                        );
                        assert(gates_of(s0.tape(qubit_index as int)) == gate_seq(
                            circuit.tape(qubit_index as int).subrange(0, node_index as int),
                            false,
                        ));
                        lemma_match_touch(
                            circuit,
                            &s0,
                            &sched,
                            cur0,
                            current_nodes@,
                            qubit_index as int,
                            qubit_index as int,
                            false,
                        );
                        if node != ROT {
                            lemma_work_at(circuit, &s0, cur0, rs, qubit_index as int);
                            lemma_work_step(
                                circuit,
                                s0.tape(qubit_index as int),
                                single_op_spec(node),
                                qubit_index as int,
                                node_index as int,
                                rs,
                            );
                            lemma_work_touch(
                                circuit,
                                &s0,
                                &sched,
                                cur0,
                                current_nodes@,
                                rs,
                                qubit_index as int,
                                qubit_index as int,
                            );
                        }
                        lemma_queue_keeps(a, b, frontier@, new_frontier@);
                        if ready_at(circuit, current_nodes@, qubit_index as int, current_nodes@[qubit_index as int] as int) {
                            assert((frontier@ + new_frontier@)[frontier@.len() - 1] == (qubit_index, current_nodes@[qubit_index as int]));
                        }
                        lemma_covered_single(circuit, cur0, a + b, frontier@ + new_frontier@, qubit_index as int);
                        lemma_pairs_single(circuit, cur0, qubit_index as int);
                    }
                } else {
                    new_frontier.push_back((qubit_index, node_index));
                    proof {
                        lemma_covered_requeue(circuit, current_nodes@, a, b);
                    }
                }
            } else {
                let partner = circuit.cx[qubit_index][node_index].unwrap();
                // A two-qubit entry is queued once its partner has reached it.
                if current_nodes[partner.0] != partner.1 {
                    proof {
                        lemma_covered_drop(circuit, current_nodes@, a + b);
                    }
                    continue;
                }
                let len_p = circuit.qubits[partner.0].len();
                proof {
                    assert(0 <= pos.slot(partner.0 as int) < n);
                    lemma_sector_below(
                        pos.slot(partner.0 as int) + state.offset,
                        n + max_shift,
                        sector_size as int,
                    );
                }
                let partner_sector = compute_current_sector(
                    pos.logical_to_physical[partner.0] + state.offset,
                    sector_size,
                );
                if current_sector == partner_sector {
                    let t = sector_time[current_sector];
                    sched.push_pair(qubit_index, partner.0, t);
                    sector_time.set(current_sector, t + TQ_TIME);
                    proof {
                        lemma_stamp(&s0, &sched, st0, current_sector as int, sector_time@[current_sector as int]);
                    }
                    advance(circuit, qubit_index, &mut current_nodes, &mut frontier);
                    let ghost a2 = frontier@;
                    let ghost cur1 = current_nodes@;
                    advance(circuit, partner.0, &mut current_nodes, &mut frontier);
                    proof {
                        lemma_done_bounded(circuit, current_nodes@);
                        lemma_record(
                            circuit.tape(qubit_index as int),
                            s0.tape(qubit_index as int),
                            SchedOp::Ms,
                            node_index as int,
                            false,
                        );
                        lemma_record(
                            circuit.tape(partner.0 as int),
                            s0.tape(partner.0 as int),
                            SchedOp::Ms,
                            partner.1 as int,
                            false,
                        );
                        lemma_match_touch(
                            circuit,
                            &s0,
                            &sched,
                            cur0,
                            current_nodes@,
                            qubit_index as int,
                            partner.0 as int,
                            false,
                        );
                        lemma_work_at(circuit, &s0, cur0, rs, qubit_index as int);
                        lemma_work_at(circuit, &s0, cur0, rs, partner.0 as int);
                        lemma_work_step(
                            circuit,
                            s0.tape(qubit_index as int),
                            SchedOp::Ms,
                            qubit_index as int,
                            node_index as int,
                            rs,
                        );
                        lemma_work_step(
                            circuit,
                            s0.tape(partner.0 as int),
                            SchedOp::Ms,
                            partner.0 as int,
                            partner.1 as int,
                            rs,
                        );
                        lemma_work_touch(
                            circuit,
                            &s0,
                            &sched,
                            cur0,
                            current_nodes@,
                            rs,
                            qubit_index as int,
                            partner.0 as int,
                        );
                        lemma_queue_keeps(a, b, frontier@, new_frontier@);
                        if ready_at(circuit, cur1, qubit_index as int, cur1[qubit_index as int] as int) {
                            assert(a2[a2.len() - 1] == (qubit_index, cur1[qubit_index as int]));
                            assert(frontier@[a2.len() - 1] == a2[a2.len() - 1]);
                            assert((frontier@ + new_frontier@)[a2.len() - 1] == (qubit_index, cur1[qubit_index as int]));
                        }
                        if ready_at(circuit, current_nodes@, partner.0 as int, current_nodes@[partner.0 as int] as int) {
                            assert((frontier@ + new_frontier@)[frontier@.len() - 1] == (partner.0, current_nodes@[partner.0 as int]));
                        }
                        lemma_covered_pair(circuit, cur0, a + b, frontier@ + new_frontier@, qubit_index as int, partner.0 as int);
                        lemma_pairs_pair(circuit, cur0, qubit_index as int, partner.0 as int);
                    }
                } else {
                    new_frontier.push_back((qubit_index, node_index));
                    proof {
                        lemma_covered_requeue(circuit, current_nodes@, a, b);
                    }
                }
            }
        }
        proof {
            assert(frontier@ + new_frontier@ =~= new_frontier@);
        }
        frontier = new_frontier;
        let ghost round_start = start_time;
        let ghost first_round = state.offset == 0;
        proof {
            if simple_gates(circuit) {
                assert forall|k: int| 0 <= k < frontier@.len() implies #[trigger] circuit.tape(
                    frontier@[k].0 as int,
                )[frontier@[k].1 as int] != MS && circuit.tape(frontier@[k].0 as int)[frontier@[k].1 as int]
                    != ROT by {
                    assert(entry_in_range(circuit, frontier@[k]));
                }
            }
        }
        let (move_qubit, stop_qubit) = mark_move_stop(
            circuit,
            &frontier,
            &pos,
            state.shuttle_right,
            true,
        );
        proof {
            if simple_gates(circuit) {
                assert(forall|k: int|
                    0 <= k < frontier@.len() ==> #[trigger] circuit.tape(frontier@[k].0 as int)[frontier@[k].1 as int]
                        != MS && circuit.tape(frontier@[k].0 as int)[frontier@[k].1 as int] != ROT);
            }
        }
        let ghost spent = (done(current_nodes@) - done0) * MAX_OP_TIME;
        let (mut first_phys, mut last_phys, mut is_horizontal) = compute_phys(
            sector_size,
            state.offset,
        );
        if !state.shuttle_right && state.offset % (sector_size + 1) != 0 && is_horizontal {
            first_phys = last_phys;
            last_phys += 1;
            is_horizontal = false;
        }
        while last_phys <= num_qubits
            invariant
                n == num_qubits == circuit.num_qubits(),
                params_ok(n, sector_size as int, empty_sector as int),
                sched.wf(),
                sched.num_qubits() == n,
                pos.wf(),
                pos.len() == n,
                move_qubit@.len() == n,
                stop_qubit@.len() == n,
                cursors_ok(circuit, current_nodes@),
                gates_match(circuit, &sched, current_nodes@, false),
            work_match(circuit, &sched, current_nodes@, rs),
                first_phys < last_phys <= n + sector_size + 1,
                state.wf(),
                state.max_shift == max_shift,
                max_shift <= 2 * crate::sector::MAX_SECTOR_SIZE * crate::sector::MAX_EMPTY_SECTORS,
                sector_num == (n + max_shift) / (sector_size as int + 1) * 2 + 1,
                sector_time@.len() == sector_num,
                0 <= spent <= MAX_OPS * MAX_OP_TIME,
                start_time <= TIME_CEILING,
                sched.times_le(seq_max(sector_time@)),
                forall|k: int|
                    0 <= k < sector_num ==> start_time <= #[trigger] sector_time@[k] <= start_time
                        + spent + SWAP_TIME * last_phys,
                simple_gates(circuit) ==> (forall|j: int| 0 <= j < n ==> !(#[trigger] move_qubit@[j])),
                simple_gates(circuit) ==> (forall|j: int| 0 <= j < n ==> !(#[trigger] stop_qubit@[j])),
                simple_gates(circuit) ==> forall|l: int| 0 <= l < n ==> #[trigger] pos.slot(l) == l,
                simple_gates(circuit) ==> forall|k: int|
                    0 <= k < sector_num ==> #[trigger] sector_time@[k] <= start_time + (done(
                        current_nodes@,
                    ) - done0),
                0 <= done0 <= done(current_nodes@) <= MAX_OPS,
            decreases n + sector_size + 1 - last_phys,
        {
            if !is_horizontal {
                first_phys = last_phys;
                last_phys += sector_size;
                is_horizontal = true;
                continue;
            }
            let default_shuttle = if state.shuttle_right {
                last_phys - 1
            } else {
                first_phys
            };
            let shuttle_physical = choose_shuttle(
                first_phys,
                last_phys,
                move_qubit.as_slice(),
                stop_qubit.as_slice(),
                state.shuttle_right,
            );
            proof {
                if simple_gates(circuit) {
                    assert(!stop_qubit@[first_phys as int]);
                    assert(!stop_qubit@[default_shuttle as int]);
                    assert(shuttle_physical == default_shuttle);
                }
            }
            if shuttle_physical != default_shuttle {
                proof {
                    lemma_sector_below(
                        default_shuttle + state.offset,
                        n + max_shift,
                        sector_size as int,
                    );
                }
                let current_sector = compute_current_sector(
                    default_shuttle + state.offset,
                    sector_size,
                );
                let t = sector_time[current_sector];
                let ghost s0 = sched;
                let ghost st0 = sector_time@;
                swap_slots_at(&mut sched, &mut pos, shuttle_physical, default_shuttle, t);
                sector_time.set(current_sector, t + SWAP_TIME);
                proof {
                    lemma_seq_max_ge(st0, current_sector as int);
                    lemma_stamp(&s0, &sched, st0, current_sector as int, sector_time@[current_sector as int]);
                    lemma_match_touch(
                        circuit,
                        &s0,
                        &sched,
                        current_nodes@,
                        current_nodes@,
                        0,
                        0,
                        false,
                    );
                    lemma_work_at(circuit, &s0, current_nodes@, rs, 0);
                    lemma_work_touch(circuit, &s0, &sched, current_nodes@, current_nodes@, rs, 0, 0);
                }
            }
            first_phys = last_phys;
            last_phys += 1;
            is_horizontal = false;
        }
        if !state.shuttle_right && first_phys < num_qubits && is_horizontal {
            let default_shuttle = first_phys;
            let shuttle_physical = choose_shuttle(
                first_phys,
                num_qubits,
                move_qubit.as_slice(),
                stop_qubit.as_slice(),
                state.shuttle_right,
            );
            proof {
                if simple_gates(circuit) {
                    assert(!stop_qubit@[first_phys as int]);
                    assert(!stop_qubit@[default_shuttle as int]);
                    assert(shuttle_physical == default_shuttle);
                }
            }
            if shuttle_physical != default_shuttle {
                proof {
                    lemma_sector_below(
                        default_shuttle + state.offset,
                        n + max_shift,
                        sector_size as int,
                    );
                }
                let current_sector = compute_current_sector(
                    default_shuttle + state.offset,
                    sector_size,
                );
                let t = sector_time[current_sector];
                let ghost s0 = sched;
                let ghost st0 = sector_time@;
                swap_slots_at(&mut sched, &mut pos, shuttle_physical, default_shuttle, t);
                sector_time.set(current_sector, t + SWAP_TIME);
                proof {
                    lemma_seq_max_ge(st0, current_sector as int);
                    lemma_stamp(&s0, &sched, st0, current_sector as int, sector_time@[current_sector as int]);
                    lemma_match_touch(
                        circuit,
                        &s0,
                        &sched,
                        current_nodes@,
                        current_nodes@,
                        0,
                        0,
                        false,
                    );
                    lemma_work_at(circuit, &s0, current_nodes@, rs, 0);
                    lemma_work_touch(circuit, &s0, &sched, current_nodes@, current_nodes@, rs, 0, 0);
                }
            }
        }
        start_time = max_time(&sector_time);
        proof {
            if simple_gates(circuit) {
                assert(start_time <= round_start + MAX_OPS);
            }
        }
        let (mut first_phys, mut last_phys, is_horizontal) = compute_phys(
            sector_size,
            state.offset,
        );
        if is_horizontal {
            first_phys = last_phys;
            last_phys += 1;
        }
        while last_phys <= num_qubits
            invariant
                n == num_qubits == sched.num_qubits(),
                params_ok(n, sector_size as int, empty_sector as int),
                sched.wf(),
                pos.wf(),
                pos.len() == n,
                n == circuit.num_qubits(),
                cursors_ok(circuit, current_nodes@),
                gates_match(circuit, &sched, current_nodes@, false),
            work_match(circuit, &sched, current_nodes@, rs),
                last_phys == first_phys + 1,
                sched.times_le(start_time as int),
                last_phys <= n + sector_size + 2,
            decreases n + sector_size + 2 - last_phys,
        {
            let logical = pos.physical_to_logical[first_phys];
            proof {
                assert(0 <= pos.holder(first_phys as int) < n);
            }
            let ghost s0 = sched;
            sched.push_op(logical, SchedOp::Correction, start_time);
            proof {
                lemma_gates_push(s0.tape(logical as int), SchedOp::Correction);
                assert(gates_of(s0.tape(logical as int)) == gate_seq(
                    circuit.tape(logical as int).subrange(0, current_nodes@[logical as int] as int),
                    false,
                ));
                lemma_match_touch(
                    circuit,
                    &s0,
                    &sched,
                    current_nodes@,
                    current_nodes@,
                    logical as int,
                    logical as int,
                    false,
                );
                lemma_work_push(s0.tape(logical as int), SchedOp::Correction);
                lemma_work_at(circuit, &s0, current_nodes@, rs, logical as int);
                lemma_work_touch(
                    circuit,
                    &s0,
                    &sched,
                    current_nodes@,
                    current_nodes@,
                    rs,
                    logical as int,
                    logical as int,
                );
            }
            first_phys = last_phys + sector_size;
            last_phys += sector_size + 1;
        }
        start_time = start_time + qec_time;
        let ghost before = sched;
        sched.push_all(SchedOp::Shuttle, start_time);
        proof {
            lemma_push_all_keeps_match(
                circuit,
                &before,
                &sched,
                current_nodes@,
                SchedOp::Shuttle,
                false,
            );
            lemma_push_all_keeps_work(circuit, &before, &sched, current_nodes@, rs, SchedOp::Shuttle);
        }
        start_time = start_time + SHUTTLE_TIME;
        state.step();
        proof {
            if simple_gates(circuit) && frontier@.len() > 0 {
                assert(first_round);
                assert forall|k: int| 0 <= k < frontier@.len() implies #[trigger] is_horizontal_at(
                    frontier@[k].0 + 1,
                    sector_size as int,
                ) by {
                    lemma_after_correction_slot(frontier@[k].0 as int, sector_size as int);
                }
            }
        }
        if start_time > TIME_CEILING {
            break;
        }
    }
    proof {
        if start_time <= TIME_CEILING && ordered(circuit) {
            assert(frontier@ =~= Seq::<(usize, usize)>::empty());
            lemma_stuck_finished(circuit, current_nodes@);
        }
    }
    let ghost before = sched;
    sched.push_all(SchedOp::Correction, start_time);
    proof {
        if no_instances(circuit) {
            lemma_empty_result(&before, &sched);
        }
        lemma_push_all_keeps_match(
            circuit,
            &before,
            &sched,
            current_nodes@,
            SchedOp::Correction,
            false,
        );
        lemma_match_prefix(circuit, &sched, current_nodes@, false);
        lemma_push_all_keeps_work(circuit, &before, &sched, current_nodes@, rs, SchedOp::Correction);
        lemma_work_prefix(circuit, &sched, current_nodes@, rs);
    }
    (sched, start_time)
}

} // verus!
