//! The baseline policy without correction zones.
use vstd::prelude::*;
use std::collections::VecDeque;
use crate::circuit::{Circuit, MS, MAX_OPS};
use crate::frontier::{
    covered, pairs_in_step, ready_at, ordered, lemma_stuck_finished, lemma_covered_drop,
    lemma_covered_single, lemma_covered_pair, lemma_covered_requeue, lemma_queue_keeps,
    lemma_pairs_single, lemma_pairs_pair,
    entry_in_range, entries_in_range, cursors_ok, done, lemma_done_bounded, start_cursors,
    seed_frontier, advance,
};
use crate::positions::QubitPositions;
use crate::schedule::{Schedule, SchedOp};
use crate::sector::{Shuttle, params_ok, choose_shuttle, compute_plain_max_shift, lemma_block_below};
use crate::scheduler::{
    no_instances, no_two_qubit, empty_schedule_at_zero, lemma_empty_result,
    runs_all,
    seq_max, lemma_seq_max_ge, lemma_stamp,
    baseline_op, no_correction, correction_only_last, schedule_ok, gates_match, runs_prefix,
    lemma_record, lemma_push_all_keeps_match, lemma_match_touch, lemma_match_prefix, single_op,
    single_op_spec, filled, max_time, mark_move_stop, swap_slots_at,
};
use crate::{SQ_TIME, TQ_TIME, SWAP_TIME, SHUTTLE_TIME, TIME_CEILING};

verus! {

/// A bound on the time one round of the baseline policy takes.
pub const ONE_ROUND_BOUND: u64 = 6_000_000_000;

/// Scheduler of the policy without correction zones: plain blocks of
/// `sector_size` slots, every single-qubit instance runs where it stands, a
/// two-qubit instance when both qubits share a block; one correction is
/// appended to every tape at the end.
pub fn pmark_scheduler(circuit: &Circuit, sector_size: usize, empty_sector: usize) -> (r: (
    Schedule,
    u64,
))
    requires
        circuit.wf_native(),
        circuit.total_ops() <= MAX_OPS,
        params_ok(circuit.num_qubits(), sector_size as int, empty_sector as int),
    ensures
        schedule_ok(circuit, r),
        correction_only_last(&r.0),
        runs_prefix(circuit, &r.0, true),
        r.1 <= TIME_CEILING && ordered(circuit) ==> runs_all(circuit, &r.0, true),
        no_two_qubit(circuit) ==> r.1 <= TIME_CEILING,
        no_instances(circuit) ==> empty_schedule_at_zero(r),
{
    let num_qubits = circuit.qubits.len();
    let ghost n = num_qubits as int;
    let ghost total = circuit.total_ops();
    let mut sched = Schedule::new(num_qubits);
    let mut pos = QubitPositions::new(num_qubits);
    let max_shift = compute_plain_max_shift(num_qubits, sector_size, empty_sector);
    let mut state = Shuttle::new(max_shift);
    let sector_num = (max_shift + num_qubits) / sector_size;
    proof {
        vstd::arithmetic::div_mod::lemma_div_is_ordered(
            sector_size as int,
            max_shift + num_qubits,
            sector_size as int,
        );
        vstd::arithmetic::div_mod::lemma_div_by_multiple(1, sector_size as int);
    }
    let mut start_time: u64 = 0;
    let mut current_nodes = start_cursors(circuit);
    let mut frontier = seed_frontier(circuit);
    while frontier.len() > 0
        invariant_except_break
            start_time <= TIME_CEILING,
        invariant
            n == num_qubits == circuit.num_qubits(),
            total == circuit.total_ops() <= MAX_OPS,
            circuit.wf_native(),
            params_ok(n, sector_size as int, empty_sector as int),
            sched.wf(),
            sched.num_qubits() == n,
            no_correction(&sched),
            pos.wf(),
            pos.len() == n,
            cursors_ok(circuit, current_nodes@),
            gates_match(circuit, &sched, current_nodes@, true),
            entries_in_range(circuit, frontier@),
            state.wf(),
            state.max_shift == max_shift,
            (n + max_shift) % (sector_size as int) == 0,
            max_shift <= 2 * crate::sector::MAX_SECTOR_SIZE * crate::sector::MAX_EMPTY_SECTORS,
            sector_num == (n + max_shift) / (sector_size as int),
            sector_num >= 1,
            sched.times_le(start_time as int),
            covered(circuit, current_nodes@, frontier@),
            pairs_in_step(circuit, current_nodes@),
            no_instances(circuit) ==> start_time == 0 && forall|q: int|
                0 <= q < n ==> #[trigger] sched.tape(q).len() == 0,
            no_two_qubit(circuit) && frontier@.len() > 0 ==> start_time == 0,
            no_two_qubit(circuit) ==> start_time <= ONE_ROUND_BOUND,
        ensures
            start_time <= TIME_CEILING ==> frontier@.len() == 0,
        decreases TIME_CEILING - start_time,
    {
        proof {
            if no_instances(circuit) {
                assert(entry_in_range(circuit, frontier@[0]));
                assert(false);
            }
        }
        let mut new_frontier: VecDeque<(usize, usize)> = VecDeque::new();
        let mut sector_time = filled(start_time, sector_num);
        let ghost done0 = done(current_nodes@);
        proof {
            lemma_done_bounded(circuit, current_nodes@);
        }
        while frontier.len() > 0
            invariant
                n == num_qubits == circuit.num_qubits(),
                total == circuit.total_ops() <= MAX_OPS,
                circuit.wf_native(),
                params_ok(n, sector_size as int, empty_sector as int),
                sched.wf(),
                sched.num_qubits() == n,
                no_correction(&sched),
                pos.wf(),
                pos.len() == n,
                cursors_ok(circuit, current_nodes@),
                gates_match(circuit, &sched, current_nodes@, true),
                entries_in_range(circuit, frontier@),
                entries_in_range(circuit, new_frontier@),
                state.wf(),
                state.max_shift == max_shift,
                (n + max_shift) % (sector_size as int) == 0,
                sector_num == (n + max_shift) / (sector_size as int),
                sector_time@.len() == sector_num,
                max_shift <= 2 * crate::sector::MAX_SECTOR_SIZE * crate::sector::MAX_EMPTY_SECTORS,
                start_time <= TIME_CEILING,
                sector_num >= 1,
                sched.times_le(seq_max(sector_time@)),
                covered(circuit, current_nodes@, frontier@ + new_frontier@),
                no_two_qubit(circuit) ==> new_frontier@.len() == 0,
                pairs_in_step(circuit, current_nodes@),
                0 <= done0 <= done(current_nodes@) <= total,
                forall|k: int|
                    0 <= k < sector_num ==> start_time <= #[trigger] sector_time@[k] <= start_time
                        + (done(current_nodes@) - done0) * TQ_TIME,
            decreases 2 * (total - done(current_nodes@)) + frontier@.len(),
        {
            proof {
                assert(entry_in_range(circuit, frontier@[0]));
                lemma_done_bounded(circuit, current_nodes@);
            }
            let ghost a = frontier@;
            let ghost b = new_frontier@;
            let (qubit_index, node_index) = frontier.pop_front().unwrap();
            proof {
                assert((a + b).subrange(1, (a + b).len() as int) =~= frontier@ + new_frontier@);
            }
            // Entries are queued while their qubit's cursor is on them; an
            // entry that has fallen behind its cursor is dropped.
            if current_nodes[qubit_index] != node_index {
                proof {
                    lemma_covered_drop(circuit, current_nodes@, a + b);
                }
                continue;
            }
            let len_q = circuit.qubits[qubit_index].len();
            proof {
                assert(circuit.cx@[qubit_index as int]@.len() == circuit.tape(
                    qubit_index as int,
                ).len());
                assert(circuit.native_entry_ok(qubit_index as int, node_index as int));
                assert(0 <= pos.slot(qubit_index as int) < n);
                lemma_block_below(
                    pos.slot(qubit_index as int) + state.offset,
                    n + max_shift,
                    sector_size as int,
                );
            }
            let node = circuit.qubits[qubit_index][node_index];
            let current_sector = (pos.logical_to_physical[qubit_index] + state.offset)
                / sector_size;
            let ghost s0 = sched;
            let ghost cur0 = current_nodes@;
            let ghost st0 = sector_time@;
            proof {
                assert(0 <= current_sector < sector_time@.len());
                lemma_seq_max_ge(st0, current_sector as int);
            }
            if node != MS {
                let t = sector_time[current_sector];
                sched.push_op(qubit_index, single_op(node), t);
                sector_time.set(current_sector, t + SQ_TIME);
                proof {
                    lemma_stamp(&s0, &sched, st0, current_sector as int, sector_time@[current_sector as int]);
                }
                advance(circuit, qubit_index, &mut current_nodes, &mut frontier);
                proof {
                    lemma_done_bounded(circuit, current_nodes@);
                    lemma_record(
                        circuit.tape(qubit_index as int),
                        s0.tape(qubit_index as int),
                        single_op_spec(node),
                        node_index as int,
                        true,
                    );
                    lemma_match_touch(
                        circuit,
                        &s0,
                        &sched,
                        cur0,
                        current_nodes@,
                        qubit_index as int,
                        qubit_index as int,
                        true,
                    );
                    lemma_queue_keeps(a, b, frontier@, new_frontier@);
                    if ready_at(circuit, current_nodes@, qubit_index as int, current_nodes@[qubit_index as int] as int) {
                        assert((frontier@ + new_frontier@)[frontier@.len() - 1] == (qubit_index, current_nodes@[qubit_index as int]));
                    }
                    lemma_covered_single(circuit, cur0, a + b, frontier@ + new_frontier@, qubit_index as int);
                    lemma_pairs_single(circuit, cur0, qubit_index as int);
                }
            } else {
                let partner = circuit.cx[qubit_index][node_index].unwrap();
                // A two-qubit entry is queued once its partner has reached it.
                if current_nodes[partner.0] != partner.1 {
                    proof {
                        lemma_covered_drop(circuit, current_nodes@, a + b);
                    }
                    continue;
                }
                let len_p = circuit.qubits[partner.0].len();
                proof {
                    assert(0 <= pos.slot(partner.0 as int) < n);
                    lemma_block_below(
                        pos.slot(partner.0 as int) + state.offset,
                        n + max_shift,
                        sector_size as int,
                    );
                }
                let partner_sector = (pos.logical_to_physical[partner.0] + state.offset)
                    / sector_size;
                if current_sector == partner_sector {
                    let t = sector_time[current_sector];
                    sched.push_pair(qubit_index, partner.0, t);
                    sector_time.set(current_sector, t + TQ_TIME);
                    let ghost a1 = frontier@;
                    proof {
                        lemma_stamp(&s0, &sched, st0, current_sector as int, sector_time@[current_sector as int]);
                    }
                    advance(circuit, qubit_index, &mut current_nodes, &mut frontier);
                    let ghost a2 = frontier@;
                    let ghost cur1 = current_nodes@;
                    advance(circuit, partner.0, &mut current_nodes, &mut frontier);
                    proof {
                        lemma_done_bounded(circuit, current_nodes@);
                        lemma_record(
                            circuit.tape(qubit_index as int),
                            s0.tape(qubit_index as int),
                            SchedOp::Ms,
                            node_index as int,
                            true,
                        );
                        lemma_record(
                            circuit.tape(partner.0 as int),
                            s0.tape(partner.0 as int),
                            SchedOp::Ms,
                            partner.1 as int,
                            true,
                        );
                        lemma_match_touch(
                            circuit,
                            &s0,
                            &sched,
                            cur0,
                            current_nodes@,
                            qubit_index as int,
                            partner.0 as int,
                            true,
                        );
                        lemma_queue_keeps(a, b, frontier@, new_frontier@);
                        if ready_at(circuit, cur1, qubit_index as int, cur1[qubit_index as int] as int) {
                            assert(a2[a2.len() - 1] == (qubit_index, cur1[qubit_index as int]));
                            assert(frontier@[a2.len() - 1] == a2[a2.len() - 1]);
                            assert((frontier@ + new_frontier@)[a2.len() - 1] == (qubit_index, cur1[qubit_index as int]));
                        }
                        if ready_at(circuit, current_nodes@, partner.0 as int, current_nodes@[partner.0 as int] as int) {
                            assert((frontier@ + new_frontier@)[frontier@.len() - 1] == (partner.0, current_nodes@[partner.0 as int]));
                        }
                        lemma_covered_pair(circuit, cur0, a + b, frontier@ + new_frontier@, qubit_index as int, partner.0 as int);
                        lemma_pairs_pair(circuit, cur0, qubit_index as int, partner.0 as int);
                    }
                } else {
                    new_frontier.push_back((qubit_index, node_index));
                    proof {
                        lemma_covered_requeue(circuit, current_nodes@, a, b);
                    }
                }
            }
        }
        proof {
            assert(frontier@ + new_frontier@ =~= new_frontier@);
        }
        frontier = new_frontier;
        let (move_qubit, stop_qubit) = mark_move_stop(
            circuit,
            &frontier,
            &pos,
            state.shuttle_right,
            false,
        );
        let ghost spent = (done(current_nodes@) - done0) * TQ_TIME;
        let mut first_phys: usize = 0;
        let mut last_phys: usize = sector_size - (state.offset % sector_size);
        if !state.shuttle_right && state.offset % sector_size != 0 {
            first_phys = last_phys;
            last_phys += sector_size;
        }
        while last_phys <= num_qubits
            invariant
                n == num_qubits == circuit.num_qubits(),
                params_ok(n, sector_size as int, empty_sector as int),
                sched.wf(),
                sched.num_qubits() == n,
                no_correction(&sched),
                pos.wf(),
                pos.len() == n,
                move_qubit@.len() == n,
                stop_qubit@.len() == n,
                cursors_ok(circuit, current_nodes@),
                gates_match(circuit, &sched, current_nodes@, true),
                first_phys < last_phys <= n + 2 * sector_size,
                state.wf(),
                state.max_shift == max_shift,
                max_shift <= 2 * crate::sector::MAX_SECTOR_SIZE * crate::sector::MAX_EMPTY_SECTORS,
                (n + max_shift) % (sector_size as int) == 0,
                sector_num == (n + max_shift) / (sector_size as int),
                sector_time@.len() == sector_num,
                0 <= spent <= MAX_OPS * TQ_TIME,
                start_time <= TIME_CEILING,
                sector_num >= 1,
                sched.times_le(seq_max(sector_time@)),
                forall|k: int|
                    0 <= k < sector_num ==> start_time <= #[trigger] sector_time@[k] <= start_time
                        + spent + SWAP_TIME * last_phys,
            decreases n + 2 * sector_size - last_phys,
        {
            let default_shuttle = if state.shuttle_right {
                last_phys - 1
            } else {
                first_phys
            };
            let shuttle_physical = choose_shuttle(
                first_phys,
                last_phys,
                move_qubit.as_slice(),
                stop_qubit.as_slice(),
                state.shuttle_right,
            );
            if shuttle_physical != default_shuttle {
                proof {
                    lemma_block_below(first_phys + state.offset, n + max_shift, sector_size as int);
                }
                let current_sector = (first_phys + state.offset) / sector_size;
                let t = sector_time[current_sector];
                let ghost s0 = sched;
                let ghost st0 = sector_time@;
                swap_slots_at(&mut sched, &mut pos, shuttle_physical, default_shuttle, t);
                sector_time.set(current_sector, t + SWAP_TIME);
                proof {
                    lemma_seq_max_ge(st0, current_sector as int);
                    lemma_stamp(&s0, &sched, st0, current_sector as int, sector_time@[current_sector as int]);
                    lemma_match_touch(
                        circuit,
                        &s0,
                        &sched,
                        current_nodes@,
                        current_nodes@,
                        0,
                        0,
                        true,
                    );
                }
            }
            first_phys = last_phys;
            last_phys += sector_size;
        }
        if !state.shuttle_right && first_phys < num_qubits {
            let default_shuttle = first_phys;
            let shuttle_physical = choose_shuttle(
                first_phys,
                num_qubits,
                move_qubit.as_slice(),
                stop_qubit.as_slice(),
                state.shuttle_right,
            );
            if shuttle_physical != default_shuttle {
                proof {
                    lemma_block_below(first_phys + state.offset, n + max_shift, sector_size as int);
                }
                let current_sector = (first_phys + state.offset) / sector_size;
                let t = sector_time[current_sector];
                let ghost s0 = sched;
                let ghost st0 = sector_time@;
                swap_slots_at(&mut sched, &mut pos, shuttle_physical, default_shuttle, t);
                sector_time.set(current_sector, t + SWAP_TIME);
                proof {
                    lemma_seq_max_ge(st0, current_sector as int);
                    lemma_stamp(&s0, &sched, st0, current_sector as int, sector_time@[current_sector as int]);
                    lemma_match_touch(
                        circuit,
                        &s0,
                        &sched,
                        current_nodes@,
                        current_nodes@,
                        0,
                        0,
                        true,
                    );
                }
            }
        }
        proof {
            assert(forall|k: int|
                0 <= k < sector_num ==> #[trigger] sector_time@[k] <= start_time + spent + SWAP_TIME
                    * (n + 2 * sector_size + 1));
        }
        start_time = max_time(&sector_time);
        proof {
            if no_two_qubit(circuit) {
                assert(frontier@.len() == 0);
            }
        }
        let ghost before = sched;
        sched.push_all(SchedOp::Shuttle, start_time);
        proof {
            lemma_push_all_keeps_match(
                circuit,
                &before,
                &sched,
                current_nodes@,
                SchedOp::Shuttle,
                true,
            );
            assert forall|q: int, i: int|
                0 <= q < sched.num_qubits() && 0 <= i < sched.tape(q).len() implies #[trigger] sched.tape(
                q,
            )[i] != SchedOp::Correction && baseline_op(sched.tape(q)[i]) by {
                assert(sched.tape(q) == before.tape(q).push(SchedOp::Shuttle));
                if i < before.tape(q).len() {
                    assert(baseline_op(before.tape(q)[i]));
                }
            }
        }
        start_time = start_time + SHUTTLE_TIME;
        state.step();
        if start_time > TIME_CEILING {
            break;
        }
    }
    proof {
        if start_time <= TIME_CEILING && ordered(circuit) {
            assert(frontier@ =~= Seq::<(usize, usize)>::empty());
            lemma_stuck_finished(circuit, current_nodes@);
        }
    }
    let ghost before = sched;
    sched.push_all(SchedOp::Correction, start_time);
    proof {
        if no_instances(circuit) {
            lemma_empty_result(&before, &sched);
        }
        lemma_push_all_keeps_match(
            circuit,
            &before,
            &sched,
            current_nodes@,
            SchedOp::Correction,
            true,
        );
        lemma_match_prefix(circuit, &sched, current_nodes@, true);
    }
    (sched, start_time)
}

} // verus!
