//! The overlapped policy: corrections run beside as much gate work as fits
//! in their time, and swaps are chosen for rotations and two-qubit gates.
use vstd::prelude::*;
use crate::circuit::{Circuit, GPI, GPI2, ROT, MS, MAX_OPS, gate_seq, lemma_gate_seq_step};
use crate::frontier::{
    cursors_ok, done, finished, lemma_done_bounded, lemma_done_step, start_cursors,
};
use crate::positions::QubitPositions;
use crate::schedule::{Schedule, SchedOp, gates_of, lemma_gates_push, closed_tape, lemma_closed_push};
use crate::sector::{
    is_horizontal_at, lemma_after_correction_slot, lemma_before_correction_slot, lemma_shift_block,
    lemma_first_block,
    Shuttle, params_ok, compute_qec_max_shift, compute_current_sector, compute_phys,
};
use crate::scheduler::{
    work_match, works_prefix, works_all, lemma_work_touch, lemma_work_step, lemma_work_rotation,
    lemma_work_reround, lemma_push_all_keeps_work, lemma_work_prefix, round_set, lemma_work_push,
    lemma_work_at,
    lemma_rounds_closed, rus_ops,
    simple_gates, no_two_qubit, no_rotation,
    no_instances, empty_schedule_at_zero, lemma_empty_result,
    seq_max, lemma_seq_max_ge, lemma_stamp,
    MAX_OP_TIME, schedule_ok, gates_match, runs_prefix, runs_all, lemma_record,
    lemma_push_all_keeps_match, lemma_match_touch, lemma_match_prefix, single_op, single_op_spec,
    swap_slots_at, apply_non_clifford,
};
use crate::{SQ_TIME, TQ_TIME, SWAP_TIME, SHUTTLE_TIME, TIME_CEILING, MAX_QEC_TIME};

verus! {

/// Whether some qubit has not yet run its whole tape.
pub(crate) fn any_unfinished(c: &Circuit, current_nodes: &Vec<usize>) -> (r: bool)
    requires
        cursors_ok(c, current_nodes@),
    ensures
        r == !finished(c, current_nodes@),
{
    let n = c.qubits.len();
    let mut q: usize = 0;
    while q < n
        invariant
            q <= n == c.num_qubits(),
            cursors_ok(c, current_nodes@),
            forall|k: int| 0 <= k < q ==> #[trigger] current_nodes@[k] == c.tape(k).len(),
        decreases n - q,
    {
        if current_nodes[q] < c.qubits[q].len() {
            return true;
        }
        q += 1;
    }
    false
}

/// The next instance of logical qubit `l`, if it has one.
pub open spec fn next_op(c: &Circuit, cur: Seq<usize>, l: int) -> Option<u8> {
    if cur[l] < c.tape(l).len() {
        Some(c.tape(l)[cur[l] as int])
    } else {
        None
    }
}

/// The qubit in slot `phys` is waiting on a rotation.
pub open spec fn waits_rotation(c: &Circuit, cur: Seq<usize>, p2l: Seq<usize>, phys: int) -> bool {
    next_op(c, cur, p2l[phys] as int) == Some(ROT)
}

/// The qubit in slot `phys` waits on a two-qubit gate whose partner has
/// reached it; the partner's slot.
pub open spec fn ready_partner_slot(
    c: &Circuit,
    cur: Seq<usize>,
    p2l: Seq<usize>,
    l2p: Seq<usize>,
    phys: int,
) -> Option<int> {
    let l = p2l[phys] as int;
    if next_op(c, cur, l) == Some(MS) && cur[c.partner(l, cur[l] as int).unwrap().0 as int]
        == c.partner(l, cur[l] as int).unwrap().1 {
        Some(l2p[c.partner(l, cur[l] as int).unwrap().0 as int] as int)
    } else {
        None
    }
}

/// A ready two-qubit gate whose partner is less than a sector away on the
/// side the shuttle favours.
pub open spec fn is_close(
    c: &Circuit,
    cur: Seq<usize>,
    p2l: Seq<usize>,
    l2p: Seq<usize>,
    phys: int,
    sector_size: int,
    shuttle_right: bool,
) -> bool {
    match ready_partner_slot(c, cur, p2l, l2p, phys) {
        Some(pp) => {
            &&& (if phys >= pp {
                phys - pp
            } else {
                pp - phys
            }) < sector_size
            &&& (pp > phys && shuttle_right || pp < phys && !shuttle_right)
        },
        None => false,
    }
}

/// A ready two-qubit gate whose partner is a sector or more away in the
/// shuttle's direction.
pub open spec fn is_far(
    c: &Circuit,
    cur: Seq<usize>,
    p2l: Seq<usize>,
    l2p: Seq<usize>,
    phys: int,
    sector_size: int,
    shuttle_right: bool,
) -> bool {
    match ready_partner_slot(c, cur, p2l, l2p, phys) {
        Some(pp) => if shuttle_right {
            pp >= phys + sector_size
        } else {
            phys >= pp + sector_size
        },
        None => false,
    }
}

/// `r` is the first slot of `qubits` with property `f`.
pub open spec fn first_with(qubits: Seq<usize>, f: spec_fn(int) -> bool, r: usize) -> bool {
    exists|k: int|
        0 <= k < qubits.len() && r == #[trigger] qubits[k] && f(qubits[k] as int) && forall|
            j: int,
        |
            0 <= j < k ==> !f(#[trigger] qubits[j] as int)
}

/// Picks the slot of a horizontal block (listed in scan order, the block's
/// default edge first) that a swap should bring to the edge, with the reason:
/// 1 for the first slot waiting on a rotation; else 2 for the first slot
/// with a close two-qubit gate; else 3 for the first with a far one; else 0
/// and the default slot. The shuttle is taken to move right when the scan
/// runs right to left. A block of one slot always gives the default.
pub fn choose_ntcf(
    qubits: &Vec<usize>,
    physical_to_logical: &Vec<usize>,
    logical_to_physical: &Vec<usize>,
    current_nodes: &Vec<usize>,
    circuit: &Circuit,
    sector_size: usize,
) -> (r: (usize, usize))
    requires
        circuit.wf_native(),
        cursors_ok(circuit, current_nodes@),
        qubits@.len() >= 1,
        physical_to_logical@.len() == circuit.num_qubits(),
        logical_to_physical@.len() == circuit.num_qubits(),
        forall|k: int| 0 <= k < qubits@.len() ==> #[trigger] qubits@[k] < circuit.num_qubits(),
        forall|p: int|
            0 <= p < circuit.num_qubits() ==> #[trigger] physical_to_logical@[p]
                < circuit.num_qubits(),
        forall|k: int|
            0 <= k < qubits@.len() ==> #[trigger] qubits@[k] < usize::MAX - sector_size,
        forall|l: int|
            0 <= l < circuit.num_qubits() ==> #[trigger] logical_to_physical@[l] < usize::MAX
                - sector_size,
    ensures
        qubits@.len() == 1 ==> r == (qubits@[0], 0usize),
        qubits@.len() > 1 ==> ({
            let right = qubits@[0] > qubits@[1];
            let rot = |p: int| waits_rotation(circuit, current_nodes@, physical_to_logical@, p);
            let close = |p: int|
                is_close(
                    circuit,
                    current_nodes@,
                    physical_to_logical@,
                    logical_to_physical@,
                    p,
                    sector_size as int,
                    right,
                );
            let far = |p: int|
                is_far(
                    circuit,
                    current_nodes@,
                    physical_to_logical@,
                    logical_to_physical@,
                    p,
                    sector_size as int,
                    right,
                );
            if exists|k: int| 0 <= k < qubits@.len() && rot(#[trigger] qubits@[k] as int) {
                r.1 == 1 && first_with(qubits@, rot, r.0)
            } else if exists|k: int| 0 <= k < qubits@.len() && close(#[trigger] qubits@[k] as int) {
                r.1 == 2 && first_with(qubits@, close, r.0)
            } else if exists|k: int| 0 <= k < qubits@.len() && far(#[trigger] qubits@[k] as int) {
                r.1 == 3 && first_with(qubits@, far, r.0)
            } else {
                r == (qubits@[0], 0usize)
            }
        }),
{
    if qubits.len() == 1 {
        return (qubits[0], 0);
    }
    let ghost rot = |p: int| waits_rotation(circuit, current_nodes@, physical_to_logical@, p);
    let mut k: usize = 0;
    while k < qubits.len()
        invariant
            k <= qubits@.len(),
            qubits@.len() > 1,
            circuit.wf_native(),
            cursors_ok(circuit, current_nodes@),
            physical_to_logical@.len() == circuit.num_qubits(),
            forall|k: int| 0 <= k < qubits@.len() ==> #[trigger] qubits@[k] < circuit.num_qubits(),
            forall|p: int|
                0 <= p < circuit.num_qubits() ==> #[trigger] physical_to_logical@[p]
                    < circuit.num_qubits(),
            rot == (|p: int| waits_rotation(circuit, current_nodes@, physical_to_logical@, p)),
            forall|j: int| 0 <= j < k ==> !rot(#[trigger] qubits@[j] as int),
        decreases qubits@.len() - k,
    {
        let qubit = qubits[k];
        let logical_qubit = physical_to_logical[qubit];
        proof {
            assert(qubits@[k as int] < circuit.num_qubits());
            assert(physical_to_logical@[qubit as int] < circuit.num_qubits());
        }
        let node_index = current_nodes[logical_qubit];
        if node_index < circuit.qubits[logical_qubit].len() {
            if circuit.qubits[logical_qubit][node_index] == ROT {
                proof {
                    assert(rot(qubits@[k as int] as int));
                    assert(first_with(qubits@, rot, qubit));
                }
                return (qubit, 1);
            }
        }
        k += 1;
    }
    let shuttle_right = qubits[0] > qubits[1];
    let ghost close = |p: int|
        is_close(
            circuit,
            current_nodes@,
            physical_to_logical@,
            logical_to_physical@,
            p,
            sector_size as int,
            shuttle_right,
        );
    let ghost far = |p: int|
        is_far(
            circuit,
            current_nodes@,
            physical_to_logical@,
            logical_to_physical@,
            p,
            sector_size as int,
            shuttle_right,
        );
    let mut candidate: Option<usize> = None;
    let mut k: usize = 0;
    while k < qubits.len()
        invariant
            k <= qubits@.len(),
            qubits@.len() > 1,
            circuit.wf_native(),
            cursors_ok(circuit, current_nodes@),
            physical_to_logical@.len() == circuit.num_qubits(),
            logical_to_physical@.len() == circuit.num_qubits(),
            forall|k: int| 0 <= k < qubits@.len() ==> #[trigger] qubits@[k] < circuit.num_qubits(),
            forall|p: int|
                0 <= p < circuit.num_qubits() ==> #[trigger] physical_to_logical@[p]
                    < circuit.num_qubits(),
            forall|k: int|
                0 <= k < qubits@.len() ==> #[trigger] qubits@[k] < usize::MAX - sector_size,
            forall|l: int|
                0 <= l < circuit.num_qubits() ==> #[trigger] logical_to_physical@[l] < usize::MAX
                    - sector_size,
            close == (|p: int|
                is_close(
                    circuit,
                    current_nodes@,
                    physical_to_logical@,
                    logical_to_physical@,
                    p,
                    sector_size as int,
                    shuttle_right,
                )),
            far == (|p: int|
                is_far(
                    circuit,
                    current_nodes@,
                    physical_to_logical@,
                    logical_to_physical@,
                    p,
                    sector_size as int,
                    shuttle_right,
                )),
            rot == (|p: int| waits_rotation(circuit, current_nodes@, physical_to_logical@, p)),
            forall|j: int| 0 <= j < qubits@.len() ==> !rot(#[trigger] qubits@[j] as int),
            shuttle_right == (qubits@[0] > qubits@[1]),
            forall|j: int| 0 <= j < k ==> !close(#[trigger] qubits@[j] as int),
            candidate.is_none() ==> forall|j: int| 0 <= j < k ==> !far(#[trigger] qubits@[j] as int),
            candidate.is_some() ==> first_with(qubits@.subrange(0, k as int), far, candidate.unwrap()),
        decreases qubits@.len() - k,
    {
        let qubit = qubits[k];
        let logical_qubit = physical_to_logical[qubit];
        proof {
            assert(qubits@[k as int] < circuit.num_qubits());
            assert(qubits@[k as int] < usize::MAX - sector_size);
            assert(physical_to_logical@[qubit as int] < circuit.num_qubits());
            if candidate.is_some() {
                let w = choose|w: int|
                    0 <= w < k && candidate.unwrap() == #[trigger] qubits@.subrange(0, k as int)[w]
                        && far(qubits@.subrange(0, k as int)[w] as int) && forall|j: int|
                        0 <= j < w ==> !far(#[trigger] qubits@.subrange(0, k as int)[j] as int);
                assert(qubits@.subrange(0, k + 1)[w] == qubits@.subrange(0, k as int)[w]);
                assert forall|j: int| 0 <= j < w implies !far(
                    #[trigger] qubits@.subrange(0, k + 1)[j] as int,
                ) by {
                    assert(qubits@.subrange(0, k + 1)[j] == qubits@.subrange(0, k as int)[j]);
                }
            }
        }
        let node_index = current_nodes[logical_qubit];
        if node_index < circuit.qubits[logical_qubit].len() && circuit.qubits[logical_qubit][node_index] == MS {
            proof {
                assert(circuit.cx@[logical_qubit as int]@.len() == circuit.tape(
                    logical_qubit as int,
                ).len());
                assert(circuit.native_entry_ok(logical_qubit as int, node_index as int));
            }
            let partner = circuit.cx[logical_qubit][node_index].unwrap();
            let physical_partner = logical_to_physical[partner.0];
            proof {
                assert(logical_to_physical@[partner.0 as int] < usize::MAX - sector_size);
            }
            if current_nodes[partner.0] == partner.1 {
                let distance = if qubit >= physical_partner {
                    qubit - physical_partner
                } else {
                    physical_partner - qubit
                };
                if distance < sector_size {
                    if physical_partner > qubit && shuttle_right || physical_partner < qubit
                        && !shuttle_right {
                        proof {
                            assert(close(qubits@[k as int] as int));
                            assert(first_with(qubits@, close, qubit));
                        }
                        return (qubit, 2);
                    }
                } else if candidate.is_none() && shuttle_right && physical_partner >= qubit
                    + sector_size {
                    proof {
                        assert(far(qubits@.subrange(0, k + 1)[k as int] as int));
                    }
                    candidate = Some(qubit);
                } else if candidate.is_none() && !shuttle_right && qubit >= physical_partner
                    + sector_size {
                    proof {
                        assert(far(qubits@.subrange(0, k + 1)[k as int] as int));
                    }
                    candidate = Some(qubit);
                }
            }
        }
        proof {
            if candidate.is_some() {
                assert(first_with(qubits@.subrange(0, k + 1), far, candidate.unwrap()));
            }
        }
        k += 1;
    }
    proof {
        assert(qubits@.subrange(0, qubits@.len() as int) =~= qubits@);
    }
    match candidate {
        Some(c) => (c, 3),
        None => (qubits[0], 0),
    }
}

/// Rounds of the overlapped policy that fit under the ceiling.
proof fn lemma_round_time(rounds: int, total: int, qec: int)
    requires
        0 <= rounds <= 2 * total + 1,
        0 <= total,
        0 <= qec,
    ensures
        rounds * (qec + SHUTTLE_TIME) <= (2 * total + 2) * (2 * qec + SHUTTLE_TIME),
{
    assert(rounds * (qec + 15) <= (2 * total + 2) * (2 * qec + 15)) by (nonlinear_arith)
        requires
            0 <= rounds <= 2 * total + 1,
            0 <= total,
            0 <= qec,
    ;
}

/// Logical qubit `l` cannot run another instance from time `st` within
/// `limit`: it has finished, or waits on a two-qubit gate or a rotation, or a
/// single-qubit gate no longer fits.
pub open spec fn stuck_at(c: &Circuit, cur: Seq<usize>, l: int, st: int, limit: int) -> bool {
    ||| cur[l] == c.tape(l).len()
    ||| c.tape(l)[cur[l] as int] == MS
    ||| c.tape(l)[cur[l] as int] == ROT
    ||| st + SQ_TIME > limit
}

/// Runs, from time `*sector_time`, as many ready instances of the qubit in
/// execution slot `physical` as end by `limit`; returns whether any ran.
fn run_horizontal_qubit(
    circuit: &Circuit,
    sched: &mut Schedule,
    pos: &QubitPositions,
    current_nodes: &mut Vec<usize>,
    physical: usize,
    offset: usize,
    sector_size: usize,
    limit: u64,
    sector_time: &mut u64,
    rs: Ghost<spec_fn(int, int) -> nat>,
) -> (changed: bool)
    requires
        circuit.wf_native(),
        circuit.total_ops() <= MAX_OPS,
        old(sched).wf(),
        old(sched).num_qubits() == circuit.num_qubits(),
        pos.wf(),
        pos.len() == circuit.num_qubits(),
        circuit.num_qubits() <= crate::sector::MAX_QUBITS,
        cursors_ok(circuit, old(current_nodes)@),
        physical < circuit.num_qubits(),
        offset <= 2 * crate::sector::MAX_SECTOR_SIZE * crate::sector::MAX_EMPTY_SECTORS,
        1 <= sector_size <= crate::sector::MAX_SECTOR_SIZE,
        *old(sector_time) <= limit,
        limit <= u64::MAX - TQ_TIME,
        gates_match(circuit, &*old(sched), old(current_nodes)@, false),
        old(sched).measures_closed(),
        work_match(circuit, &*old(sched), old(current_nodes)@, rs@),
    ensures
        gates_match(circuit, &*final(sched), final(current_nodes)@, false),
        work_match(circuit, &*final(sched), final(current_nodes)@, rs@),
        final(sched).measures_closed(),
        forall|b: int|
            old(sched).times_le(b) && limit <= b ==> #[trigger] final(sched).times_le(b),
        final(sched).wf(),
        final(sched).num_qubits() == old(sched).num_qubits(),
        cursors_ok(circuit, final(current_nodes)@),
        *old(sector_time) <= *final(sector_time) <= limit,
        done(final(current_nodes)@) >= done(old(current_nodes)@),
        changed == (done(final(current_nodes)@) > done(old(current_nodes)@)),
        !changed ==> *final(sector_time) == *old(sector_time),
        !changed ==> final(current_nodes)@ == old(current_nodes)@ && stuck_at(
            circuit,
            old(current_nodes)@,
            pos.holder(physical as int),
            *old(sector_time) as int,
            limit as int,
        ),
{
    let ghost done0 = done(current_nodes@);
    let ghost cur_start = current_nodes@;
    let ghost total = circuit.total_ops();
    let ghost n = circuit.num_qubits();
    let ghost st0 = *sector_time;
    let ghost s_start = *sched;
    let logical_qubit = pos.physical_to_logical[physical];
    proof {
        assert(0 <= pos.holder(physical as int) < n);
        lemma_done_bounded(circuit, current_nodes@);
    }
    let mut changed = false;
    loop
        invariant
            n == circuit.num_qubits() <= crate::sector::MAX_QUBITS,
            total == circuit.total_ops(),
            circuit.wf_native(),
            sched.wf(),
            sched.num_qubits() == n,
            pos.wf(),
            pos.len() == n,
            logical_qubit < n,
            physical < n,
            offset <= 2 * crate::sector::MAX_SECTOR_SIZE * crate::sector::MAX_EMPTY_SECTORS,
            1 <= sector_size <= crate::sector::MAX_SECTOR_SIZE,
            cursors_ok(circuit, current_nodes@),
            st0 <= *sector_time <= limit,
            limit <= u64::MAX - TQ_TIME,
            done0 <= done(current_nodes@) <= total,
            changed == (done(current_nodes@) > done0),
            gates_match(circuit, &sched, current_nodes@, false),
            work_match(circuit, &sched, current_nodes@, rs@),
            forall|b: int| s_start.times_le(b) && limit <= b ==> #[trigger] sched.times_le(b),
            !changed ==> current_nodes@ == cur_start && *sector_time == st0,
            logical_qubit == pos.holder(physical as int),
            sched.measures_closed(),
            work_match(circuit, &*sched, current_nodes@, rs@),
        ensures
            sched.measures_closed(),
            work_match(circuit, &*sched, current_nodes@, rs@),
            cursors_ok(circuit, current_nodes@),
            st0 <= *sector_time <= limit,
            done0 <= done(current_nodes@),
            changed == (done(current_nodes@) > done0),
            gates_match(circuit, &sched, current_nodes@, false),
            work_match(circuit, &sched, current_nodes@, rs@),
            forall|b: int| s_start.times_le(b) && limit <= b ==> #[trigger] sched.times_le(b),
            sched.wf(),
            sched.num_qubits() == n,
            !changed ==> *sector_time == st0,
            !changed ==> current_nodes@ == cur_start && stuck_at(
                circuit,
                cur_start,
                logical_qubit as int,
                st0 as int,
                limit as int,
            ),
        decreases total - done(current_nodes@),
    {
        let len = circuit.qubits[logical_qubit].len();
        let node_index = current_nodes[logical_qubit];
        if node_index == len {
            break;
        }
        proof {
            assert(node_index <= len);
            assert(circuit.cx@[logical_qubit as int]@.len() == len);
            assert(circuit.native_entry_ok(logical_qubit as int, node_index as int));
        }
        let node = circuit.qubits[logical_qubit][node_index];
        let ghost s0 = *sched;
        let ghost cur0 = current_nodes@;
        if node == GPI || node == GPI2 {
            if *sector_time + SQ_TIME <= limit {
                proof {
                    lemma_closed_push(sched.tape(logical_qubit as int), single_op_spec(node));
                }
                sched.push_op(logical_qubit, single_op(node), *sector_time);
                *sector_time = *sector_time + SQ_TIME;
                proof {
                    lemma_done_step(current_nodes@, logical_qubit as int);
                }
                current_nodes.set(logical_qubit, node_index + 1);
                changed = true;
                proof {
                    assert forall|b: int| s_start.times_le(b) && limit <= b implies #[trigger] sched.times_le(
                        b,
                    ) by {
                        assert(s0.times_le(b));
                    }
                    lemma_record(
                        circuit.tape(logical_qubit as int),
                        s0.tape(logical_qubit as int),
                        single_op_spec(node),
                        node_index as int,
                        false,
                    );
                    lemma_match_touch(
                        circuit,
                        &s0,
                        &*sched,
                        cur0,
                        current_nodes@,
                        logical_qubit as int,
                        logical_qubit as int,
                        false,
                    );
                    lemma_work_at(circuit, &s0, cur0, rs@, logical_qubit as int);
                    lemma_work_step(
                        circuit,
                        s0.tape(logical_qubit as int),
                        single_op_spec(node),
                        logical_qubit as int,
                        node_index as int,
                        rs@,
                    );
                    lemma_work_touch(
                        circuit,
                        &s0,
                        &*sched,
                        cur0,
                        current_nodes@,
                        rs@,
                        logical_qubit as int,
                        logical_qubit as int,
                    );
                }
            } else {
                break;
            }
        } else if node == MS {
            if *sector_time + TQ_TIME > limit {
                break;
            }
            let partner = circuit.cx[logical_qubit][node_index].unwrap();
            if current_nodes[partner.0] != partner.1 {
                break;
            }
            proof {
                assert(0 <= pos.slot(partner.0 as int) < n);
            }
            let current_sector = compute_current_sector(physical + offset, sector_size);
            let partner_sector = compute_current_sector(
                pos.logical_to_physical[partner.0] + offset,
                sector_size,
            );
            if current_sector != partner_sector {
                break;
            }
            let partner_len = circuit.qubits[partner.0].len();
            sched.push_pair(logical_qubit, partner.0, *sector_time);
            *sector_time = *sector_time + TQ_TIME;
            proof {
                lemma_done_step(current_nodes@, logical_qubit as int);
            }
            current_nodes.set(logical_qubit, node_index + 1);
            proof {
                lemma_done_step(current_nodes@, partner.0 as int);
            }
            current_nodes.set(partner.0, partner.1 + 1);
            changed = true;
            proof {
                assert forall|b: int| s_start.times_le(b) && limit <= b implies #[trigger] sched.times_le(
                    b,
                ) by {
                    assert(s0.times_le(b));
                }
                lemma_record(
                    circuit.tape(logical_qubit as int),
                    s0.tape(logical_qubit as int),
                    SchedOp::Ms,
                    node_index as int,
                    false,
                );
                lemma_record(
                    circuit.tape(partner.0 as int),
                    s0.tape(partner.0 as int),
                    SchedOp::Ms,
                    partner.1 as int,
                    false,
                );
                lemma_match_touch(
                    circuit,
                    &s0,
                    &*sched,
                    cur0,
                    current_nodes@,
                    logical_qubit as int,
                    partner.0 as int,
                    false,
                );
                lemma_work_at(circuit, &s0, cur0, rs@, logical_qubit as int);
                lemma_work_at(circuit, &s0, cur0, rs@, partner.0 as int);
                lemma_work_step(
                    circuit,
                    s0.tape(logical_qubit as int),
                    SchedOp::Ms,
                    logical_qubit as int,
                    node_index as int,
                    rs@,
                );
                lemma_work_step(
                    circuit,
                    s0.tape(partner.0 as int),
                    SchedOp::Ms,
                    partner.0 as int,
                    partner.1 as int,
                    rs@,
                );
                lemma_work_touch(
                    circuit,
                    &s0,
                    &*sched,
                    cur0,
                    current_nodes@,
                    rs@,
                    logical_qubit as int,
                    partner.0 as int,
                );
            }
        } else {
            break;
        }
        proof {
            lemma_done_bounded(circuit, current_nodes@);
        }
    }
    changed
}

/// Slots `first..end` in scan order: right to left when shuttling right.
fn scan_order(first: usize, end: usize, shuttle_right: bool) -> (r: Vec<usize>)
    requires
        first < end,
    ensures
        r@.len() == end - first,
        forall|k: int| 0 <= k < r@.len() ==> first <= #[trigger] r@[k] < end,
        shuttle_right ==> forall|k: int| 0 <= k < r@.len() ==> #[trigger] r@[k] == end - 1 - k,
        !shuttle_right ==> forall|k: int| 0 <= k < r@.len() ==> #[trigger] r@[k] == first + k,
{
    let mut r: Vec<usize> = Vec::new();
    let mut k: usize = 0;
    while k < end - first
        invariant
            first < end,
            k <= end - first,
            r@.len() == k,
            forall|j: int| 0 <= j < k ==> first <= #[trigger] r@[j] < end,
            shuttle_right ==> forall|j: int| 0 <= j < k ==> #[trigger] r@[j] == end - 1 - j,
            !shuttle_right ==> forall|j: int| 0 <= j < k ==> #[trigger] r@[j] == first + j,
        decreases end - first - k,
    {
        if shuttle_right {
            r.push(end - 1 - k);
        } else {
            r.push(first + k);
        }
        k += 1;
    }
    r
}


/// Overlapped scheduler: each round the qubit in every correction slot runs
/// at most one ready rotation and then a correction lasting `qec_time`, while
/// the qubits of each execution block run as many ready gates as end within
/// the round's budget (the longest correction, capped at twice `qec_time`);
/// then each block may take one swap, and the partition shifts. Every tape
/// gets a final correction.
pub fn ntcf_scheduler(
    circuit: &Circuit,
    sector_size: usize,
    empty_sector: usize,
    qec_time: u64,
) -> (r: (Schedule, u64))
    requires
        circuit.wf_native(),
        circuit.depths_ok(),
        circuit.total_ops() <= MAX_OPS,
        params_ok(circuit.num_qubits(), sector_size as int, empty_sector as int),
        qec_time <= MAX_QEC_TIME,
    ensures
        schedule_ok(circuit, r),
        runs_prefix(circuit, &r.0, false),
        no_instances(circuit) ==> empty_schedule_at_zero(r),
        r.1 <= TIME_CEILING ==> runs_all(circuit, &r.0, false),
        r.0.measures_closed(),
        works_prefix(circuit, &r.0),
        r.1 <= TIME_CEILING ==> works_all(circuit, &r.0),
        simple_gates(circuit) && qec_time >= SQ_TIME && (2 * circuit.total_ops() + 2) * (2
            * qec_time + SHUTTLE_TIME) <= TIME_CEILING ==> r.1 <= TIME_CEILING,
{
    let num_qubits = circuit.qubits.len();
    let ghost n = num_qubits as int;
    let ghost total = circuit.total_ops();
    let mut sched = Schedule::new(num_qubits);
    let mut pos = QubitPositions::new(num_qubits);
    let max_shift = compute_qec_max_shift(num_qubits, sector_size, empty_sector);
    let mut state = Shuttle::new(max_shift);
    let mut start_time: u64 = 0;
    let mut current_nodes = start_cursors(circuit);
    let ghost mut rounds: nat = 0;
    let ghost mut rs: spec_fn(int, int) -> nat = |q: int, i: int| 0nat;
    proof {
        assert forall|q: int| 0 <= q < n implies #[trigger] crate::scheduler::work_of(sched.tape(q))
            == crate::scheduler::expand(circuit, q, current_nodes@[q] as int, rs)
            && crate::scheduler::rounds_ok(circuit, q, current_nodes@[q] as int, rs) by {
            assert(sched.tape(q).len() == 0);
            assert(sched.tape(q) =~= Seq::<SchedOp>::empty());
        }
    }
    let ghost mut stalled: bool = false;
    proof {
        lemma_done_bounded(circuit, current_nodes@);
        assert forall|q: int| 0 <= q < sched.num_qubits() implies #[trigger] closed_tape(
            sched.tape(q),
        ) by {
            assert(sched.tape(q).len() == 0);
        }
    }
    while any_unfinished(circuit, &current_nodes)
        invariant_except_break
            start_time <= TIME_CEILING,
        invariant
            n == num_qubits == circuit.num_qubits(),
            total == circuit.total_ops() <= MAX_OPS,
            circuit.wf_native(),
            circuit.depths_ok(),
            params_ok(n, sector_size as int, empty_sector as int),
            qec_time <= MAX_QEC_TIME,
            sched.wf(),
            sched.num_qubits() == n,
            pos.wf(),
            pos.len() == n,
            cursors_ok(circuit, current_nodes@),
            gates_match(circuit, &sched, current_nodes@, false),
            work_match(circuit, &sched, current_nodes@, rs),
            state.wf(),
            state.max_shift == max_shift,
            max_shift <= 2 * crate::sector::MAX_SECTOR_SIZE * crate::sector::MAX_EMPTY_SECTORS,
            sched.times_le(start_time as int),
            sched.measures_closed(),
            no_instances(circuit) ==> start_time == 0 && forall|q: int|
                0 <= q < n ==> #[trigger] sched.tape(q).len() == 0,
            (simple_gates(circuit) && qec_time >= SQ_TIME) ==> forall|l: int| 0 <= l < n ==> #[trigger] pos.slot(l) == l,
            (simple_gates(circuit) && qec_time >= SQ_TIME) ==> start_time == rounds * (qec_time + SHUTTLE_TIME),
            (simple_gates(circuit) && qec_time >= SQ_TIME) ==> rounds <= 2 * done(current_nodes@) + if stalled {
                1int
            } else {
                0int
            },
            (simple_gates(circuit) && qec_time >= SQ_TIME) && stalled ==> forall|q: int|
                0 <= q < n && current_nodes@[q] < circuit.tape(q).len() ==> #[trigger] is_horizontal_at(
                    q + state.offset,
                    sector_size as int,
                ),
            (simple_gates(circuit) && qec_time >= SQ_TIME) && (2 * circuit.total_ops() + 2) * (2 * qec_time + SHUTTLE_TIME) <= TIME_CEILING ==> start_time <= TIME_CEILING,
        ensures
            start_time <= TIME_CEILING ==> finished(circuit, current_nodes@),
        decreases TIME_CEILING - start_time,
    {
        proof {
            if no_instances(circuit) {
                assert(finished(circuit, current_nodes@));
                assert(false);
            }
            lemma_done_bounded(circuit, current_nodes@);
        }
        let ghost cur_r = current_nodes@;
        let mut time_limit = start_time + qec_time;
        let (mut first_phys, last_phys, is_horizontal) = compute_phys(sector_size, state.offset);
        if is_horizontal {
            first_phys = last_phys;
        }
        while first_phys < num_qubits
            invariant
                n == num_qubits == circuit.num_qubits(),
                circuit.wf_native(),
                circuit.depths_ok(),
                params_ok(n, sector_size as int, empty_sector as int),
                qec_time <= MAX_QEC_TIME,
                sched.wf(),
                sched.num_qubits() == n,
                pos.wf(),
                pos.len() == n,
                cursors_ok(circuit, current_nodes@),
                gates_match(circuit, &sched, current_nodes@, false),
            work_match(circuit, &sched, current_nodes@, rs),
                start_time <= TIME_CEILING,
                start_time + qec_time <= time_limit <= start_time + qec_time + MAX_OP_TIME,
                (simple_gates(circuit) && qec_time >= SQ_TIME) ==> time_limit == start_time + qec_time && current_nodes@ == cur_r,
                sched.times_le(time_limit as int),
                sched.measures_closed(),
                first_phys <= n + sector_size + 1,
            decreases n + sector_size + 1 - first_phys,
        {
            let qubit_index = pos.physical_to_logical[first_phys];
            proof {
                assert(0 <= pos.holder(first_phys as int) < n);
            }
            let node_index = current_nodes[qubit_index];
            let mut sector_time = start_time;
            let ghost s0 = sched;
            let ghost cur0 = current_nodes@;
            let ghost mut rk: nat = 0;
            if node_index < circuit.qubits[qubit_index].len() {
                if circuit.qubits[qubit_index][node_index] == ROT {
                    proof {
                        assert(circuit.cx@[qubit_index as int]@.len() == circuit.tape(
                            qubit_index as int,
                        ).len());
                        assert(circuit.tape(qubit_index as int)[node_index as int] == ROT);
                    }
                    let depth = circuit.depths[qubit_index][node_index].unwrap();
                    apply_non_clifford(&mut sched, qubit_index, depth, &mut sector_time);
                    proof {
                        assert(exists|k: nat|
                            sched.tape(qubit_index as int) == s0.tape(qubit_index as int) + rus_ops(k));
                        rk = choose|k: nat|
                            {
                                &&& if depth == 0 {
                                    k == 0
                                } else {
                                    1 <= k <= depth
                                }
                                &&& sched.tape(qubit_index as int) == s0.tape(qubit_index as int)
                                    + rus_ops(k)
                            };
                        lemma_work_at(circuit, &s0, cur0, rs, qubit_index as int);
                        lemma_work_reround(circuit, &s0, cur0, rs, qubit_index as int, node_index as int, rk);
                        lemma_work_rotation(circuit, s0.tape(qubit_index as int), qubit_index as int, node_index as int, rs, rk);
                        rs = round_set(rs, qubit_index as int, node_index as int, rk);
                    }
                    current_nodes.set(qubit_index, node_index + 1);
                    proof {
                        lemma_gate_seq_step(circuit.tape(qubit_index as int), node_index as int, false);
                        assert(gates_of(s0.tape(qubit_index as int)) == gate_seq(
                            circuit.tape(qubit_index as int).subrange(0, node_index as int),
                            false,
                        ));
                        lemma_match_touch(
                            circuit,
                            &s0,
                            &sched,
                            cur0,
                            current_nodes@,
                            qubit_index as int,
                            qubit_index as int,
                            false,
                        );
                        lemma_work_touch(
                            circuit,
                            &s0,
                            &sched,
                            cur0,
                            current_nodes@,
                            rs,
                            qubit_index as int,
                            qubit_index as int,
                        );
                    }
                }
            }
            let ghost s1 = sched;
            proof {
                if rk == 0 {
                    assert(s0.tape(qubit_index as int) + rus_ops(0) =~= s0.tape(qubit_index as int));
                }
                assert(s1.tape(qubit_index as int) == s0.tape(qubit_index as int) + rus_ops(rk));
                assert(forall|r: int|
                    0 <= r < n && r != qubit_index ==> #[trigger] s1.tape(r) == s0.tape(r));
            }
            sched.push_op(qubit_index, SchedOp::Correction, sector_time);
            proof {
                assert(closed_tape(s0.tape(qubit_index as int)));
                lemma_rounds_closed(s0.tape(qubit_index as int), rk);
                assert forall|r: int| 0 <= r < sched.num_qubits() implies #[trigger] closed_tape(
                    sched.tape(r),
                ) by {
                    if r != qubit_index {
                        assert(closed_tape(s0.tape(r)));
                    }
                }
                lemma_gates_push(s1.tape(qubit_index as int), SchedOp::Correction);
                assert(gates_of(s1.tape(qubit_index as int)) == gate_seq(
                    circuit.tape(qubit_index as int).subrange(
                        0,
                        current_nodes@[qubit_index as int] as int,
                    ),
                    false,
                ));
                lemma_match_touch(
                    circuit,
                    &s1,
                    &sched,
                    current_nodes@,
                    current_nodes@,
                    qubit_index as int,
                    qubit_index as int,
                    false,
                );
                lemma_work_push(s1.tape(qubit_index as int), SchedOp::Correction);
                lemma_work_at(circuit, &s1, current_nodes@, rs, qubit_index as int);
                lemma_work_touch(
                    circuit,
                    &s1,
                    &sched,
                    current_nodes@,
                    current_nodes@,
                    rs,
                    qubit_index as int,
                    qubit_index as int,
                );
            }
            sector_time = sector_time + qec_time;
            if sector_time > time_limit {
                time_limit = sector_time;
            }
            proof {
                assert(s0.times_le(time_limit as int));
                assert(s1.times_le(time_limit as int));
            }
            first_phys += sector_size + 1;
        }
        let horizontal_limit = if time_limit < start_time + 2 * qec_time {
            time_limit
        } else {
            start_time + 2 * qec_time
        };
        let (mut first_phys, mut last_phys, is_horizontal) = compute_phys(
            sector_size,
            state.offset,
        );
        if !is_horizontal {
            first_phys = last_phys;
            last_phys += sector_size;
        }
        let ghost cur_h = current_nodes@;
        proof {
            assert forall|p: int| 0 <= p < n implies #[trigger] pos.physical_to_logical@[p] < n by {
                assert(pos.holder(p) < n);
            }
            lemma_first_block(
                state.offset as int,
                sector_size as int,
                if is_horizontal { last_phys as int } else { 1 },
                is_horizontal,
            );
            lemma_done_bounded(circuit, current_nodes@);
        }
        while first_phys < num_qubits
            invariant
                n == num_qubits == circuit.num_qubits(),
                total == circuit.total_ops() <= MAX_OPS,
                circuit.wf_native(),
                params_ok(n, sector_size as int, empty_sector as int),
                sched.wf(),
                sched.num_qubits() == n,
                pos.wf(),
                pos.len() == n,
                forall|p: int| 0 <= p < n ==> #[trigger] pos.physical_to_logical@[p] < n,
                cursors_ok(circuit, current_nodes@),
                gates_match(circuit, &sched, current_nodes@, false),
            work_match(circuit, &sched, current_nodes@, rs),
                state.wf(),
                state.max_shift == max_shift,
                max_shift <= 2 * crate::sector::MAX_SECTOR_SIZE * crate::sector::MAX_EMPTY_SECTORS,
                start_time <= horizontal_limit <= time_limit,
                time_limit <= TIME_CEILING + MAX_QEC_TIME + MAX_OP_TIME,
                sched.times_le(time_limit as int),
                sched.measures_closed(),
                first_phys < last_phys <= first_phys + sector_size,
                first_phys <= n + sector_size + 1,
                !is_horizontal_at(last_phys + state.offset, sector_size as int),
                done(current_nodes@) >= done(cur_h),
                (simple_gates(circuit) && qec_time >= SQ_TIME) ==> forall|l: int| 0 <= l < n ==> #[trigger] pos.slot(l) == l,
                (simple_gates(circuit) && qec_time >= SQ_TIME) ==> horizontal_limit >= start_time + SQ_TIME,
                (simple_gates(circuit) && qec_time >= SQ_TIME) ==> current_nodes@ == cur_h || done(current_nodes@) > done(cur_h),
                (simple_gates(circuit) && qec_time >= SQ_TIME) && current_nodes@ == cur_h ==> forall|x: int|
                    0 <= x < first_phys && x < n && #[trigger] is_horizontal_at(
                        x + state.offset,
                        sector_size as int,
                    ) ==> cur_h[x] == circuit.tape(x).len(),
            decreases n + sector_size + 1 - first_phys,
        {
            let ghost old_first = first_phys as int;
            let ghost old_last = last_phys as int;
            let mut sector_time = start_time;
            let end = if last_phys < num_qubits {
                last_phys
            } else {
                num_qubits
            };
            let qubits = scan_order(first_phys, end, state.shuttle_right);
            let ghost cur_b = current_nodes@;
            while sector_time < horizontal_limit
                invariant
                    n == num_qubits == circuit.num_qubits(),
                    total == circuit.total_ops() <= MAX_OPS,
                    circuit.wf_native(),
                    params_ok(n, sector_size as int, empty_sector as int),
                    sched.wf(),
                    sched.num_qubits() == n,
                    pos.wf(),
                    pos.len() == n,
                    cursors_ok(circuit, current_nodes@),
                    gates_match(circuit, &sched, current_nodes@, false),
            work_match(circuit, &sched, current_nodes@, rs),
                    state.wf(),
                    state.max_shift == max_shift,
                    max_shift <= 2 * crate::sector::MAX_SECTOR_SIZE
                        * crate::sector::MAX_EMPTY_SECTORS,
                    start_time <= sector_time <= horizontal_limit <= time_limit,
                    horizontal_limit <= TIME_CEILING + MAX_QEC_TIME + MAX_OP_TIME,
                    sched.times_le(time_limit as int),
                    sched.measures_closed(),
                sched.measures_closed(),
                    forall|k: int| 0 <= k < qubits@.len() ==> #[trigger] qubits@[k] < n,
                    done(current_nodes@) >= done(cur_b),
                    (current_nodes@ == cur_b && sector_time == start_time) || done(current_nodes@)
                        > done(cur_b),
                    (simple_gates(circuit) && qec_time >= SQ_TIME) ==> forall|l: int| 0 <= l < n ==> #[trigger] pos.slot(l) == l,
                    (simple_gates(circuit) && qec_time >= SQ_TIME) ==> horizontal_limit >= start_time + SQ_TIME,
                ensures
                    cursors_ok(circuit, current_nodes@),
                    done(current_nodes@) >= done(cur_b),
                    done(current_nodes@) > done(cur_b) || (current_nodes@ == cur_b && ((simple_gates(circuit) && qec_time >= SQ_TIME)
                        ==> forall|j: int|
                        0 <= j < qubits@.len() ==> cur_b[#[trigger] qubits@[j] as int]
                            == circuit.tape(qubits@[j] as int).len())),
                decreases total - done(current_nodes@),
            {
                let ghost d0 = done(current_nodes@);
                let ghost cur_p = current_nodes@;
                let ghost st_p = sector_time;
                proof {
                    lemma_done_bounded(circuit, current_nodes@);
                }
                let mut changed = false;
                let mut k: usize = 0;
                while k < qubits.len()
                    invariant
                        n == num_qubits == circuit.num_qubits(),
                        total == circuit.total_ops() <= MAX_OPS,
                        circuit.wf_native(),
                        params_ok(n, sector_size as int, empty_sector as int),
                        sched.wf(),
                        sched.num_qubits() == n,
                        pos.wf(),
                        pos.len() == n,
                        cursors_ok(circuit, current_nodes@),
                        gates_match(circuit, &sched, current_nodes@, false),
            work_match(circuit, &sched, current_nodes@, rs),
                        state.max_shift == max_shift,
                        state.wf(),
                        max_shift <= 2 * crate::sector::MAX_SECTOR_SIZE
                            * crate::sector::MAX_EMPTY_SECTORS,
                        start_time <= sector_time <= horizontal_limit <= time_limit,
                        horizontal_limit <= TIME_CEILING + MAX_QEC_TIME + MAX_OP_TIME,
                        sched.times_le(time_limit as int),
                        sched.measures_closed(),
                    sched.measures_closed(),
                sched.measures_closed(),
                        forall|k: int| 0 <= k < qubits@.len() ==> #[trigger] qubits@[k] < n,
                        done(current_nodes@) >= d0,
                        changed == (done(current_nodes@) > d0),
                        d0 == done(cur_p),
                        !changed ==> current_nodes@ == cur_p && sector_time == st_p,
                        (simple_gates(circuit) && qec_time >= SQ_TIME) ==> forall|l: int| 0 <= l < n ==> #[trigger] pos.slot(l) == l,
                        (simple_gates(circuit) && qec_time >= SQ_TIME) && !changed && st_p + SQ_TIME <= horizontal_limit ==> forall|j: int|
                            0 <= j < k ==> cur_p[#[trigger] qubits@[j] as int] == circuit.tape(
                                qubits@[j] as int,
                            ).len(),
                    decreases qubits@.len() - k,
                {
                    let physical = qubits[k];
                    proof {
                        assert(qubits@[k as int] < n);
                    }
                    let ran = run_horizontal_qubit(
                        circuit,
                        &mut sched,
                        &pos,
                        &mut current_nodes,
                        physical,
                        state.offset,
                        sector_size,
                        horizontal_limit,
                        &mut sector_time,
                        Ghost(rs),
                    );
                    proof {
                        if (simple_gates(circuit) && qec_time >= SQ_TIME) && !changed && !ran && st_p + SQ_TIME <= horizontal_limit {
                            assert(pos.holder(physical as int) == physical) by {
                                assert(pos.slot(physical as int) == physical);
                            }
                            let l = physical as int;
                            if cur_p[l] < circuit.tape(l).len() {
                                assert(circuit.tape(l)[cur_p[l] as int] != MS);
                                assert(circuit.tape(l)[cur_p[l] as int] != ROT);
                            }
                        }
                    }
                    changed = changed || ran;
                    k += 1;
                }
                proof {
                    lemma_done_bounded(circuit, current_nodes@);
                }
                if !changed {
                    break;
                }
            }
            if sector_time + SWAP_TIME <= time_limit {
                let default_shuttle = qubits[0];
                proof {
                    assert(qubits@[0] < n);
                    assert forall|l: int| 0 <= l < n implies #[trigger] pos.logical_to_physical@[l]
                        < usize::MAX - sector_size by {
                        assert(pos.slot(l) < n);
                    }
                }
                let (shuttle_physical, _reason) = choose_ntcf(
                    &qubits,
                    &pos.physical_to_logical,
                    &pos.logical_to_physical,
                    &current_nodes,
                    circuit,
                    sector_size,
                );
                let ghost s2 = sched;
                proof {
                    if (simple_gates(circuit) && qec_time >= SQ_TIME) {
                        assert forall|k: int|
                            0 <= k < qubits@.len() implies !waits_rotation(
                            circuit,
                            current_nodes@,
                            pos.physical_to_logical@,
                            #[trigger] qubits@[k] as int,
                        ) && ready_partner_slot(
                            circuit,
                            current_nodes@,
                            pos.physical_to_logical@,
                            pos.logical_to_physical@,
                            qubits@[k] as int,
                        ).is_none() by {
                            let l = pos.physical_to_logical@[qubits@[k] as int] as int;
                            assert(l < n);
                            if current_nodes@[l] < circuit.tape(l).len() {
                                assert(circuit.tape(l)[current_nodes@[l] as int] != MS);
                                assert(circuit.tape(l)[current_nodes@[l] as int] != ROT);
                            }
                        }
                        assert(shuttle_physical == default_shuttle);
                    }
                }
                if default_shuttle != shuttle_physical {
                    swap_slots_at(
                        &mut sched,
                        &mut pos,
                        shuttle_physical,
                        default_shuttle,
                        sector_time,
                    );
                }
                proof {
                    assert forall|p: int| 0 <= p < n implies #[trigger] pos.physical_to_logical@[p]
                        < n by {
                        assert(pos.holder(p) < n);
                    }
                    lemma_match_touch(
                        circuit,
                        &s2,
                        &sched,
                        current_nodes@,
                        current_nodes@,
                        0,
                        0,
                        false,
                    );
                    lemma_work_at(circuit, &s2, current_nodes@, rs, 0);
                    lemma_work_touch(circuit, &s2, &sched, current_nodes@, current_nodes@, rs, 0, 0);
                }
            }
            first_phys = last_phys + 1;
            last_phys += sector_size + 1;
            proof {
                lemma_shift_block(old_last + state.offset, sector_size as int);
                if (simple_gates(circuit) && qec_time >= SQ_TIME) && current_nodes@ == cur_h {
                    assert(current_nodes@ == cur_b);
                    assert forall|x: int|
                        0 <= x < first_phys && x < n && #[trigger] is_horizontal_at(
                            x + state.offset,
                            sector_size as int,
                        ) implies cur_h[x] == circuit.tape(x).len() by {
                        if x >= old_first && x < end {
                            if state.shuttle_right {
                                let j = end - 1 - x;
                                assert(qubits@[j] == x);
                            } else {
                                let j = x - old_first;
                                assert(qubits@[j] == x);
                            }
                        }
                    }
                }
            }
        }
        start_time = time_limit;
        let ghost before = sched;
        sched.push_all(SchedOp::Shuttle, start_time);
        proof {
            lemma_push_all_keeps_match(
                circuit,
                &before,
                &sched,
                current_nodes@,
                SchedOp::Shuttle,
                false,
            );
            lemma_push_all_keeps_work(circuit, &before, &sched, current_nodes@, rs, SchedOp::Shuttle);
        }
        start_time = start_time + SHUTTLE_TIME;
        let ghost off0 = state.offset as int;
        let ghost right0 = state.shuttle_right;
        state.step();
        proof {
            if (simple_gates(circuit) && qec_time >= SQ_TIME) {
                lemma_done_bounded(circuit, current_nodes@);
                let progress = done(current_nodes@) > done(cur_r);
                if !progress {
                    assert(current_nodes@ == cur_r);
                    assert forall|q: int|
                        0 <= q < n && current_nodes@[q] < circuit.tape(q).len() implies !is_horizontal_at(
                        q + off0,
                        sector_size as int,
                    ) by {
                        if is_horizontal_at(q + off0, sector_size as int) {
                            assert(cur_h[q] == circuit.tape(q).len());
                        }
                    }
                    if stalled {
                        assert forall|q: int| 0 <= q < cur_r.len() implies #[trigger] cur_r[q]
                            == circuit.tape(q).len() by {
                            if cur_r[q] < circuit.tape(q).len() {
                                assert(is_horizontal_at(q + off0, sector_size as int));
                            }
                        }
                        assert(finished(circuit, cur_r));
                    }
                    assert forall|q: int|
                        0 <= q < n && current_nodes@[q] < circuit.tape(q).len() implies #[trigger] is_horizontal_at(
                        q + state.offset,
                        sector_size as int,
                    ) by {
                        assert(!is_horizontal_at(q + off0, sector_size as int));
                        if right0 {
                            lemma_after_correction_slot(q + off0, sector_size as int);
                        } else {
                            lemma_before_correction_slot(q + off0, sector_size as int);
                        }
                    }
                }
                assert((rounds + 1) * (qec_time + SHUTTLE_TIME) == rounds * (qec_time + SHUTTLE_TIME)
                    + qec_time + SHUTTLE_TIME) by (nonlinear_arith);
                rounds = rounds + 1;
                stalled = !progress;
                assert(rounds <= 2 * circuit.total_ops() + 1);
                lemma_round_time(rounds as int, circuit.total_ops(), qec_time as int);
            }
        }
        if start_time > TIME_CEILING {
            break;
        }
    }
    let ghost before = sched;
    sched.push_all(SchedOp::Correction, start_time);
    proof {
        if no_instances(circuit) {
            lemma_empty_result(&before, &sched);
        }
        lemma_push_all_keeps_match(
            circuit,
            &before,
            &sched,
            current_nodes@,
            SchedOp::Correction,
            false,
        );
        lemma_match_prefix(circuit, &sched, current_nodes@, false);
        lemma_push_all_keeps_work(circuit, &before, &sched, current_nodes@, rs, SchedOp::Correction);
        lemma_work_prefix(circuit, &sched, current_nodes@, rs);
    }
    (sched, start_time)
}

} // verus!
