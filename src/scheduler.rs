//! What the three scheduling policies share: the contracts they meet, the
//! swap and bookkeeping helpers, the expansion of rotations, and the checks
//! of their preconditions.
use vstd::prelude::*;
use std::collections::VecDeque;
use crate::circuit::{
    Circuit, GPI, GPI2, ROT, MS, MAX_OPS, MAX_DEPTH, gate_seq, lemma_gate_seq_step,
};
use crate::frontier::{entry_in_range, entries_in_range, cursors_ok, finished};
use crate::positions::QubitPositions;
use crate::schedule::{
    Schedule, SchedOp, gate_code, gates_of, lemma_gates_push, closed_tape, lemma_closed_push,
};
use crate::sector::params_ok;
use crate::{SQ_TIME, TQ_TIME, MEASURE_TIME, MAX_QEC_TIME};

verus! {

/// Upper bound on the time that one instance of a circuit adds to a sector.
pub const MAX_OP_TIME: u64 = 9 * 0x1_0000;

/// An operation of the baseline policy before its final correction: a
/// circuit gate, a swap or a shuttle step.
pub open spec fn baseline_op(op: SchedOp) -> bool {
    op == SchedOp::Gpi || op == SchedOp::Gpi2 || op == SchedOp::Rz || op == SchedOp::Ms || op
        == SchedOp::Swap || op == SchedOp::Shuttle
}

/// Every operation on every tape is a baseline operation; in particular no
/// tape holds a correction.
pub open spec fn no_correction(s: &Schedule) -> bool {
    forall|q: int, i: int|
        0 <= q < s.num_qubits() && 0 <= i < s.tape(q).len() ==> baseline_op(
            #[trigger] s.tape(q)[i],
        )
}

/// Every operation but the last on each tape is a baseline operation: the
/// final correction is the only one.
pub open spec fn correction_only_last(s: &Schedule) -> bool {
    forall|q: int, i: int|
        0 <= q < s.num_qubits() && 0 <= i < s.tape(q).len() - 1 ==> baseline_op(
            #[trigger] s.tape(q)[i],
        )
}

/// Every tape's last timestamp is `t`.
pub open spec fn all_end_at(s: &Schedule, t: u64) -> bool {
    forall|q: int| 0 <= q < s.num_qubits() ==> #[trigger] s.times(q).last() == t
}

/// What every policy's result satisfies.
pub open spec fn schedule_ok(c: &Circuit, r: (Schedule, u64)) -> bool {
    &&& r.0.wf()
    &&& r.0.num_qubits() == c.num_qubits()
    &&& r.0.ends_with_correction()
    &&& all_end_at(&r.0, r.1)
    &&& r.0.times_le(r.1 as int)
}

/// No tape holds an instance.
pub open spec fn no_instances(c: &Circuit) -> bool {
    forall|q: int| 0 <= q < c.num_qubits() ==> #[trigger] c.tape(q).len() == 0
}

/// No tape holds a two-qubit instance.
pub open spec fn no_two_qubit(c: &Circuit) -> bool {
    forall|q: int, i: int|
        0 <= q < c.num_qubits() && 0 <= i < c.tape(q).len() ==> #[trigger] c.tape(q)[i] != MS
}

/// No tape holds a rotation.
pub open spec fn no_rotation(c: &Circuit) -> bool {
    forall|q: int, i: int|
        0 <= q < c.num_qubits() && 0 <= i < c.tape(q).len() ==> #[trigger] c.tape(q)[i] != ROT
}

/// Only single-qubit gates: no two-qubit instance and no rotation.
pub open spec fn simple_gates(c: &Circuit) -> bool {
    no_two_qubit(c) && no_rotation(c)
}

/// The result for a circuit without instances: each tape is a single
/// correction at time 0, and the run took no time.
pub open spec fn empty_schedule_at_zero(r: (Schedule, u64)) -> bool {
    &&& r.1 == 0
    &&& forall|q: int|
        0 <= q < r.0.num_qubits() ==> #[trigger] r.0.tape(q) == seq![SchedOp::Correction]
            && r.0.times(q) == seq![0u64]
}

/// Appending a correction at time 0 to empty tapes gives the empty-circuit
/// result.
pub(crate) proof fn lemma_empty_result(s0: &Schedule, s1: &Schedule)
    requires
        s0.wf(),
        s1.num_qubits() == s0.num_qubits(),
        forall|q: int| 0 <= q < s0.num_qubits() ==> #[trigger] s0.tape(q).len() == 0,
        forall|q: int|
            0 <= q < s0.num_qubits() ==> #[trigger] s1.tape(q) == s0.tape(q).push(SchedOp::Correction)
                && s1.times(q) == s0.times(q).push(0u64),
    ensures
        empty_schedule_at_zero((*s1, 0u64)),
{
    assert forall|q: int| 0 <= q < s1.num_qubits() implies #[trigger] s1.tape(q) == seq![
        SchedOp::Correction,
    ] && s1.times(q) == seq![0u64] by {
        assert(s0.timestamp@[q]@.len() == s0.tape(q).len());
        assert(s1.tape(q) =~= seq![SchedOp::Correction]);
        assert(s1.times(q) =~= seq![0u64]);
    }
}

/// The largest entry of `s` (0 when empty).
pub open spec fn seq_max(s: Seq<u64>) -> int
    decreases s.len(),
{
    if s.len() == 0 {
        0
    } else if s.last() > seq_max(s.drop_last()) {
        s.last() as int
    } else {
        seq_max(s.drop_last())
    }
}

pub(crate) proof fn lemma_seq_max_ge(s: Seq<u64>, k: int)
    requires
        0 <= k < s.len(),
    ensures
        s[k] <= seq_max(s),
    decreases s.len(),
{
    if k < s.len() - 1 {
        lemma_seq_max_ge(s.drop_last(), k);
    }
}

pub(crate) proof fn lemma_seq_max_le(s: Seq<u64>, r: int)
    requires
        r >= 0,
        forall|k: int| 0 <= k < s.len() ==> #[trigger] s[k] <= r,
    ensures
        seq_max(s) <= r,
    decreases s.len(),
{
    if s.len() > 0 {
        lemma_seq_max_le(s.drop_last(), r);
    }
}

/// Recording an operation that starts by `v`, then raising entry `k` of the
/// sector times to `v`, keeps every start time within their maximum.
pub(crate) proof fn lemma_stamp(s0: &Schedule, s1: &Schedule, st: Seq<u64>, k: int, v: u64)
    requires
        s0.times_le(seq_max(st)),
        0 <= k < st.len(),
        st[k] <= v,
        forall|b: int| s0.times_le(b) && v <= b ==> #[trigger] s1.times_le(b),
    ensures
        s1.times_le(seq_max(st.update(k, v))),
{
    lemma_seq_max_raise(st, k, v);
    let m = seq_max(st.update(k, v));
    assert(s0.times_le(m));
}

/// Raising one entry does not lower the maximum, which is at least the new
/// entry.
pub(crate) proof fn lemma_seq_max_raise(s: Seq<u64>, k: int, v: u64)
    requires
        0 <= k < s.len(),
        s[k] <= v,
    ensures
        seq_max(s) <= seq_max(s.update(k, v)),
        v <= seq_max(s.update(k, v)),
{
    let u = s.update(k, v);
    lemma_seq_max_ge(u, k);
    assert forall|j: int| 0 <= j < s.len() implies #[trigger] s[j] <= seq_max(u) by {
        lemma_seq_max_ge(u, j);
    }
    lemma_seq_max_le(s, seq_max(u));
}

/// Each qubit's scheduled gates are the circuit's gates before its cursor,
/// rotations left out unless `keep_rot`.
pub open spec fn gates_match(c: &Circuit, s: &Schedule, cur: Seq<usize>, keep_rot: bool) -> bool {
    forall|q: int|
        0 <= q < c.num_qubits() ==> #[trigger] gates_of(s.tape(q)) == gate_seq(
            c.tape(q).subrange(0, cur[q] as int),
            keep_rot,
        )
}

/// Each qubit's scheduled gates are, in order, the circuit's gates of a
/// prefix of its tape, rotations left out unless `keep_rot`.
pub open spec fn runs_prefix(c: &Circuit, s: &Schedule, keep_rot: bool) -> bool {
    forall|q: int| 0 <= q < c.num_qubits() ==> #[trigger] qubit_runs_prefix(c, s, q, keep_rot)
}

/// Qubit `q`'s scheduled gates are the circuit's gates of a prefix of its tape.
pub open spec fn qubit_runs_prefix(c: &Circuit, s: &Schedule, q: int, keep_rot: bool) -> bool {
    exists|k: int|
        0 <= k <= c.tape(q).len() && gates_of(s.tape(q)) == #[trigger] gate_seq(
            c.tape(q).subrange(0, k),
            keep_rot,
        )
}

/// Each qubit's scheduled gates are all of the circuit's gates on its tape,
/// rotations left out unless `keep_rot`.
pub open spec fn runs_all(c: &Circuit, s: &Schedule, keep_rot: bool) -> bool {
    forall|q: int|
        0 <= q < c.num_qubits() ==> #[trigger] gates_of(s.tape(q)) == gate_seq(c.tape(q), keep_rot)
}

/// Recording instance `k` of tape `ct` extends the recorded gates by it.
pub(crate) proof fn lemma_record(ct: Seq<u8>, t: Seq<SchedOp>, op: SchedOp, k: int, keep_rot: bool)
    requires
        0 <= k < ct.len(),
        gates_of(t) == gate_seq(ct.subrange(0, k), keep_rot),
        gate_code(op) == Some(ct[k]),
        ct[k] != ROT || keep_rot,
    ensures
        gates_of(t.push(op)) == gate_seq(ct.subrange(0, k + 1), keep_rot),
{
    lemma_gates_push(t, op);
    lemma_gate_seq_step(ct, k, keep_rot);
}

/// Operations that are no gates of the circuit leave the recorded gates alone.
pub(crate) proof fn lemma_rus_keeps_gates(t: Seq<SchedOp>, k: nat)
    ensures
        gates_of(t + crate::scheduler::rus_ops(k)) == gates_of(t),
    decreases k,
{
    if k > 0 {
        let a = t + rus_ops((k - 1) as nat);
        lemma_rus_keeps_gates(t, (k - 1) as nat);
        assert(t + rus_ops(k) =~= a.push(SchedOp::RusStep).push(SchedOp::MsAncilla).push(
            SchedOp::RusStep,
        ).push(SchedOp::RusStep).push(SchedOp::Measure));
        lemma_gates_push(a, SchedOp::RusStep);
        lemma_gates_push(a.push(SchedOp::RusStep), SchedOp::MsAncilla);
        lemma_gates_push(a.push(SchedOp::RusStep).push(SchedOp::MsAncilla), SchedOp::RusStep);
        lemma_gates_push(
            a.push(SchedOp::RusStep).push(SchedOp::MsAncilla).push(SchedOp::RusStep),
            SchedOp::RusStep,
        );
        lemma_gates_push(
            a.push(SchedOp::RusStep).push(SchedOp::MsAncilla).push(SchedOp::RusStep).push(
                SchedOp::RusStep,
            ),
            SchedOp::Measure,
        );
    }
}

/// Appending a non-gate operation to every tape keeps the match.
pub(crate) proof fn lemma_push_all_keeps_match(c: &Circuit, s0: &Schedule, s1: &Schedule, cur: Seq<usize>, op: SchedOp, keep_rot: bool)
    requires
        gates_match(c, s0, cur, keep_rot),
        gate_code(op).is_none(),
        forall|q: int| 0 <= q < c.num_qubits() ==> #[trigger] s1.tape(q) == s0.tape(q).push(op),
    ensures
        gates_match(c, s1, cur, keep_rot),
{
    assert forall|q: int| 0 <= q < c.num_qubits() implies #[trigger] gates_of(s1.tape(q))
        == gate_seq(c.tape(q).subrange(0, cur[q] as int), keep_rot) by {
        assert(s1.tape(q) == s0.tape(q).push(op));
        lemma_gates_push(s0.tape(q), op);
        assert(gates_of(s0.tape(q)) == gate_seq(c.tape(q).subrange(0, cur[q] as int), keep_rot));
    }
}

/// The match survives steps that leave the recorded gates of every qubit
/// but `q` and `p`, and their cursors, alone.
pub(crate) proof fn lemma_match_touch(
    c: &Circuit,
    s0: &Schedule,
    s1: &Schedule,
    cur0: Seq<usize>,
    cur1: Seq<usize>,
    q: int,
    p: int,
    keep_rot: bool,
)
    requires
        gates_match(c, s0, cur0, keep_rot),
        0 <= q < c.num_qubits(),
        0 <= p < c.num_qubits(),
        gates_of(s1.tape(q)) == gate_seq(c.tape(q).subrange(0, cur1[q] as int), keep_rot),
        gates_of(s1.tape(p)) == gate_seq(c.tape(p).subrange(0, cur1[p] as int), keep_rot),
        forall|r: int|
            0 <= r < c.num_qubits() && r != q && r != p ==> #[trigger] gates_of(s1.tape(r))
                == gates_of(s0.tape(r)) && cur1[r] == cur0[r],
    ensures
        gates_match(c, s1, cur1, keep_rot),
{
    assert forall|r: int| 0 <= r < c.num_qubits() implies #[trigger] gates_of(s1.tape(r))
        == gate_seq(c.tape(r).subrange(0, cur1[r] as int), keep_rot) by {
        if r != q && r != p {
            assert(gates_of(s1.tape(r)) == gates_of(s0.tape(r)));
            assert(gates_of(s0.tape(r)) == gate_seq(c.tape(r).subrange(0, cur0[r] as int), keep_rot));
        }
    }
}

/// At the end of a run the cursors witness the prefixes.
pub(crate) proof fn lemma_match_prefix(c: &Circuit, s: &Schedule, cur: Seq<usize>, keep_rot: bool)
    requires
        gates_match(c, s, cur, keep_rot),
        cursors_ok(c, cur),
    ensures
        runs_prefix(c, s, keep_rot),
        finished(c, cur) ==> runs_all(c, s, keep_rot),
{
    assert forall|q: int| 0 <= q < c.num_qubits() implies #[trigger] qubit_runs_prefix(
        c,
        s,
        q,
        keep_rot,
    ) by {
        assert(gates_of(s.tape(q)) == gate_seq(c.tape(q).subrange(0, cur[q] as int), keep_rot));
        assert(cur[q] <= c.tape(q).len());
    }
    if finished(c, cur) {
        assert forall|q: int| 0 <= q < c.num_qubits() implies #[trigger] gates_of(s.tape(q))
            == gate_seq(c.tape(q), keep_rot) by {
            assert(gates_of(s.tape(q)) == gate_seq(c.tape(q).subrange(0, cur[q] as int), keep_rot));
            assert(cur[q] == c.tape(q).len());
            assert(c.tape(q).subrange(0, cur[q] as int) =~= c.tape(q));
        }
    }
}

/// The operations on a tape that carry out the circuit's own work: gates and
/// the steps of rotation rounds, without swaps, shuttle steps and corrections.
pub open spec fn is_work(op: SchedOp) -> bool {
    op != SchedOp::Swap && op != SchedOp::Shuttle && op != SchedOp::Correction
}

pub open spec fn work_of(t: Seq<SchedOp>) -> Seq<SchedOp>
    decreases t.len(),
{
    if t.len() == 0 {
        Seq::empty()
    } else if is_work(t.last()) {
        work_of(t.drop_last()).push(t.last())
    } else {
        work_of(t.drop_last())
    }
}

/// The scheduled form of instance code `b` run with `k` rounds if a rotation.
pub open spec fn piece(b: u8, k: nat) -> Seq<SchedOp> {
    if b == ROT {
        rus_ops(k)
    } else if b == MS {
        seq![SchedOp::Ms]
    } else {
        seq![single_op_spec(b)]
    }
}

/// The work of the first `k` instances of tape `q`, rotation `(q, i)` run
/// with `rs(q, i)` rounds.
pub open spec fn expand(c: &Circuit, q: int, k: int, rs: spec_fn(int, int) -> nat) -> Seq<SchedOp>
    decreases k,
{
    if k <= 0 {
        Seq::empty()
    } else {
        expand(c, q, k - 1, rs) + piece(c.tape(q)[k - 1], rs(q, k - 1))
    }
}

/// Each of the first `k` rotations of tape `q` ran between 1 and its repeat
/// bound rounds (none for a bound of 0).
pub open spec fn rounds_ok(c: &Circuit, q: int, k: int, rs: spec_fn(int, int) -> nat) -> bool {
    forall|i: int|
        0 <= i < k && #[trigger] c.tape(q)[i] == ROT ==> if c.depth(q, i).unwrap() == 0 {
            rs(q, i) == 0
        } else {
            1 <= rs(q, i) <= c.depth(q, i).unwrap()
        }
}

/// Each tape's work is that of the circuit's instances before its cursor.
pub open spec fn work_match(c: &Circuit, s: &Schedule, cur: Seq<usize>, rs: spec_fn(int, int) -> nat) -> bool {
    forall|q: int|
        0 <= q < c.num_qubits() ==> #[trigger] work_of(s.tape(q)) == expand(c, q, cur[q] as int, rs)
            && rounds_ok(c, q, cur[q] as int, rs)
}

/// Qubit `q`'s work on the schedule is that of a prefix of its tape, each
/// rotation expanded into 1..=bound rounds in tape order.
pub open spec fn qubit_works_prefix(c: &Circuit, s: &Schedule, q: int) -> bool {
    exists|k: int, rs: spec_fn(int, int) -> nat|
        0 <= k <= c.tape(q).len() && rounds_ok(c, q, k, rs) && work_of(s.tape(q)) == #[trigger] expand(
            c,
            q,
            k,
            rs,
        )
}

pub open spec fn works_prefix(c: &Circuit, s: &Schedule) -> bool {
    forall|q: int| 0 <= q < c.num_qubits() ==> #[trigger] qubit_works_prefix(c, s, q)
}

/// Every qubit's work on the schedule is that of its whole tape, each
/// rotation expanded into 1..=bound rounds in tape order.
pub open spec fn works_all(c: &Circuit, s: &Schedule) -> bool {
    exists|rs: spec_fn(int, int) -> nat| #[trigger] all_expanded(c, s, rs)
}

/// Every tape's work is its whole circuit tape with round counts `rs`.
pub open spec fn all_expanded(c: &Circuit, s: &Schedule, rs: spec_fn(int, int) -> nat) -> bool {
    forall|q: int|
        0 <= q < c.num_qubits() ==> #[trigger] work_of(s.tape(q)) == expand(
            c,
            q,
            c.tape(q).len() as int,
            rs,
        ) && rounds_ok(c, q, c.tape(q).len() as int, rs)
}

pub proof fn lemma_work_push(t: Seq<SchedOp>, op: SchedOp)
    ensures
        work_of(t.push(op)) == if is_work(op) {
            work_of(t).push(op)
        } else {
            work_of(t)
        },
{
    assert(t.push(op).drop_last() =~= t);
}

proof fn lemma_work_rus(t: Seq<SchedOp>, k: nat)
    ensures
        work_of(t + rus_ops(k)) == work_of(t) + rus_ops(k),
    decreases k,
{
    if k == 0 {
        assert(t + rus_ops(0) =~= t);
        assert(work_of(t) + rus_ops(0) =~= work_of(t));
    } else {
        let a = t + rus_ops((k - 1) as nat);
        lemma_work_rus(t, (k - 1) as nat);
        assert(t + rus_ops(k) =~= a.push(SchedOp::RusStep).push(SchedOp::MsAncilla).push(
            SchedOp::RusStep,
        ).push(SchedOp::RusStep).push(SchedOp::Measure));
        lemma_work_push(a, SchedOp::RusStep);
        lemma_work_push(a.push(SchedOp::RusStep), SchedOp::MsAncilla);
        lemma_work_push(a.push(SchedOp::RusStep).push(SchedOp::MsAncilla), SchedOp::RusStep);
        lemma_work_push(
            a.push(SchedOp::RusStep).push(SchedOp::MsAncilla).push(SchedOp::RusStep),
            SchedOp::RusStep,
        );
        lemma_work_push(
            a.push(SchedOp::RusStep).push(SchedOp::MsAncilla).push(SchedOp::RusStep).push(
                SchedOp::RusStep,
            ),
            SchedOp::Measure,
        );
        assert(work_of(t) + rus_ops(k) =~= (work_of(t) + rus_ops((k - 1) as nat)).push(
            SchedOp::RusStep,
        ).push(SchedOp::MsAncilla).push(SchedOp::RusStep).push(SchedOp::RusStep).push(
            SchedOp::Measure,
        ));
    }
}

/// The work keeps matching when the qubits other than `q` and `p` keep their
/// work and cursors, and `q` and `p` match on their own.
pub(crate) proof fn lemma_work_touch(
    c: &Circuit,
    s0: &Schedule,
    s1: &Schedule,
    cur0: Seq<usize>,
    cur1: Seq<usize>,
    rs: spec_fn(int, int) -> nat,
    q: int,
    p: int,
)
    requires
        work_match(c, s0, cur0, rs),
        0 <= q < c.num_qubits(),
        0 <= p < c.num_qubits(),
        work_of(s1.tape(q)) == expand(c, q, cur1[q] as int, rs),
        rounds_ok(c, q, cur1[q] as int, rs),
        work_of(s1.tape(p)) == expand(c, p, cur1[p] as int, rs),
        rounds_ok(c, p, cur1[p] as int, rs),
        forall|r: int|
            0 <= r < c.num_qubits() && r != q && r != p ==> #[trigger] work_of(s1.tape(r))
                == work_of(s0.tape(r)) && cur1[r] == cur0[r],
    ensures
        work_match(c, s1, cur1, rs),
{
    assert forall|r: int| 0 <= r < c.num_qubits() implies #[trigger] work_of(s1.tape(r)) == expand(
        c,
        r,
        cur1[r] as int,
        rs,
    ) && rounds_ok(c, r, cur1[r] as int, rs) by {
        if r != q && r != p {
            assert(work_of(s1.tape(r)) == work_of(s0.tape(r)));
            assert(work_of(s0.tape(r)) == expand(c, r, cur0[r] as int, rs));
        }
    }
}

/// Running instance `k` of tape `q` as a non-rotation extends its work.
pub(crate) proof fn lemma_work_step(
    c: &Circuit,
    t: Seq<SchedOp>,
    op: SchedOp,
    q: int,
    k: int,
    rs: spec_fn(int, int) -> nat,
)
    requires
        0 <= k < c.tape(q).len(),
        work_of(t) == expand(c, q, k, rs),
        rounds_ok(c, q, k, rs),
        c.tape(q)[k] != ROT,
        seq![op] == piece(c.tape(q)[k], rs(q, k)),
    ensures
        work_of(t.push(op)) == expand(c, q, k + 1, rs),
        rounds_ok(c, q, k + 1, rs),
{
    lemma_work_push(t, op);
    assert(seq![op][0] == piece(c.tape(q)[k], rs(q, k))[0]);
    assert(is_work(op));
    assert(work_of(t).push(op) =~= work_of(t) + seq![op]);
}

/// Running rotation `k` of tape `q` with `n` rounds extends its work.
pub(crate) proof fn lemma_work_rotation(
    c: &Circuit,
    t: Seq<SchedOp>,
    q: int,
    k: int,
    rs: spec_fn(int, int) -> nat,
    n: nat,
)
    requires
        0 <= k < c.tape(q).len(),
        work_of(t) == expand(c, q, k, rs),
        rounds_ok(c, q, k, rs),
        c.tape(q)[k] == ROT,
        if c.depth(q, k).unwrap() == 0 {
            n == 0
        } else {
            1 <= n <= c.depth(q, k).unwrap()
        },
    ensures
        work_of(t + rus_ops(n)) == expand(c, q, k + 1, round_set(rs, q, k, n)),
        rounds_ok(c, q, k + 1, round_set(rs, q, k, n)),
        forall|r: int, j: int| 0 <= j < c.tape(r).len() && (r != q || j < k) ==> #[trigger] round_set(rs, q, k, n)(r, j) == rs(r, j),
{
    let rs1 = round_set(rs, q, k, n);
    lemma_work_rus(t, n);
    lemma_expand_agree(c, q, k, rs, rs1);
    assert forall|i: int| 0 <= i < k + 1 && #[trigger] c.tape(q)[i] == ROT implies if c.depth(q, i).unwrap() == 0 {
        rs1(q, i) == 0
    } else {
        1 <= rs1(q, i) <= c.depth(q, i).unwrap()
    } by {
        if i < k {
            assert(rs1(q, i) == rs(q, i));
        }
    }
}

/// The work of qubit `q` under a matching schedule.
pub(crate) proof fn lemma_work_at(c: &Circuit, s: &Schedule, cur: Seq<usize>, rs: spec_fn(int, int) -> nat, q: int)
    requires
        work_match(c, s, cur, rs),
        0 <= q < c.num_qubits(),
    ensures
        work_of(s.tape(q)) == expand(c, q, cur[q] as int, rs),
        rounds_ok(c, q, cur[q] as int, rs),
{
    let w = work_of(s.tape(q));
    assert(w == expand(c, q, cur[q] as int, rs) && rounds_ok(c, q, cur[q] as int, rs));
}

/// Changing the round count of an instance at or past its qubit's cursor
/// keeps the work matching.
pub(crate) proof fn lemma_work_reround(
    c: &Circuit,
    s: &Schedule,
    cur: Seq<usize>,
    rs: spec_fn(int, int) -> nat,
    q: int,
    k: int,
    n: nat,
)
    requires
        work_match(c, s, cur, rs),
        0 <= q < c.num_qubits(),
        cur[q] <= k,
    ensures
        work_match(c, s, cur, round_set(rs, q, k, n)),
{
    let rs1 = round_set(rs, q, k, n);
    assert forall|r: int| 0 <= r < c.num_qubits() implies #[trigger] work_of(s.tape(r)) == expand(
        c,
        r,
        cur[r] as int,
        rs1,
    ) && rounds_ok(c, r, cur[r] as int, rs1) by {
        assert(work_of(s.tape(r)) == expand(c, r, cur[r] as int, rs));
        assert(rounds_ok(c, r, cur[r] as int, rs));
        assert forall|j: int| 0 <= j < cur[r] as int implies #[trigger] rs(r, j) == rs1(r, j) by {}
        lemma_expand_agree(c, r, cur[r] as int, rs, rs1);
        assert forall|i: int| 0 <= i < cur[r] as int && #[trigger] c.tape(r)[i] == ROT implies if c.depth(
            r,
            i,
        ).unwrap() == 0 {
            rs1(r, i) == 0
        } else {
            1 <= rs1(r, i) <= c.depth(r, i).unwrap()
        } by {
            assert(rs(r, i) == rs1(r, i));
        }
    }
}

/// `rs` with rotation `(q, k)` given `n` rounds.
pub open spec fn round_set(rs: spec_fn(int, int) -> nat, q: int, k: int, n: nat) -> spec_fn(int, int) -> nat {
    |r: int, j: int|
        if r == q && j == k {
            n
        } else {
            rs(r, j)
        }
}

/// Expansions agree where the round counts agree.
pub(crate) proof fn lemma_expand_agree(
    c: &Circuit,
    q: int,
    k: int,
    rs: spec_fn(int, int) -> nat,
    rs1: spec_fn(int, int) -> nat,
)
    requires
        forall|j: int| 0 <= j < k ==> #[trigger] rs(q, j) == rs1(q, j),
    ensures
        expand(c, q, k, rs) == expand(c, q, k, rs1),
        forall|i: int| 0 <= i < k ==> (#[trigger] rounds_ok(c, q, i, rs)) == rounds_ok(c, q, i, rs1),
    decreases k,
{
    if k > 0 {
        lemma_expand_agree(c, q, k - 1, rs, rs1);
        assert(rs(q, k - 1) == rs1(q, k - 1));
    }
}

/// Appending a non-work operation to every tape keeps the work.
pub(crate) proof fn lemma_push_all_keeps_work(
    c: &Circuit,
    s0: &Schedule,
    s1: &Schedule,
    cur: Seq<usize>,
    rs: spec_fn(int, int) -> nat,
    op: SchedOp,
)
    requires
        work_match(c, s0, cur, rs),
        !is_work(op),
        forall|q: int| 0 <= q < c.num_qubits() ==> #[trigger] s1.tape(q) == s0.tape(q).push(op),
    ensures
        work_match(c, s1, cur, rs),
{
    assert forall|q: int| 0 <= q < c.num_qubits() implies #[trigger] work_of(s1.tape(q)) == expand(
        c,
        q,
        cur[q] as int,
        rs,
    ) && rounds_ok(c, q, cur[q] as int, rs) by {
        assert(s1.tape(q) == s0.tape(q).push(op));
        lemma_work_push(s0.tape(q), op);
        assert(work_of(s0.tape(q)) == expand(c, q, cur[q] as int, rs));
    }
}

/// At the end of a run the cursors witness the expanded prefixes.
pub(crate) proof fn lemma_work_prefix(c: &Circuit, s: &Schedule, cur: Seq<usize>, rs: spec_fn(int, int) -> nat)
    requires
        work_match(c, s, cur, rs),
        cursors_ok(c, cur),
    ensures
        works_prefix(c, s),
        finished(c, cur) ==> works_all(c, s),
{
    assert forall|q: int| 0 <= q < c.num_qubits() implies #[trigger] qubit_works_prefix(c, s, q) by {
        assert(work_of(s.tape(q)) == expand(c, q, cur[q] as int, rs));
        assert(cur[q] <= c.tape(q).len());
    }
    if finished(c, cur) {
        assert forall|q: int| 0 <= q < c.num_qubits() implies #[trigger] work_of(s.tape(q)) == expand(
            c,
            q,
            c.tape(q).len() as int,
            rs,
        ) && rounds_ok(c, q, c.tape(q).len() as int, rs) by {
            assert(work_of(s.tape(q)) == expand(c, q, cur[q] as int, rs));
            assert(cur[q] == c.tape(q).len());
        }
        assert(all_expanded(c, s, rs));
    }
}

/// The scheduled operation of a single-qubit code.
pub open spec fn single_op_spec(b: u8) -> SchedOp {
    if b == GPI {
        SchedOp::Gpi
    } else if b == GPI2 {
        SchedOp::Gpi2
    } else {
        SchedOp::Rz
    }
}

pub(crate) fn single_op(b: u8) -> (r: SchedOp)
    ensures
        r == single_op_spec(b),
        r != SchedOp::Ms,
        r != SchedOp::Correction,
        baseline_op(r),
{
    if b == GPI {
        SchedOp::Gpi
    } else if b == GPI2 {
        SchedOp::Gpi2
    } else {
        SchedOp::Rz
    }
}

/// `k` copies of `t`.
pub(crate) fn filled(t: u64, k: usize) -> (r: Vec<u64>)
    ensures
        r@.len() == k,
        forall|i: int| 0 <= i < k ==> #[trigger] r@[i] == t,
        k > 0 ==> seq_max(r@) == t,
{
    let mut r: Vec<u64> = Vec::new();
    let mut i: usize = 0;
    while i < k
        invariant
            i <= k,
            r@.len() == i,
            forall|j: int| 0 <= j < i ==> #[trigger] r@[j] == t,
        decreases k - i,
    {
        r.push(t);
        i += 1;
    }
    proof {
        if k > 0 {
            lemma_seq_max_ge(r@, 0);
            lemma_seq_max_le(r@, t as int);
        }
    }
    r
}

/// The largest entry of a non-empty vector.
pub(crate) fn max_time(v: &Vec<u64>) -> (r: u64)
    requires
        v@.len() > 0,
    ensures
        exists|i: int| 0 <= i < v@.len() && r == #[trigger] v@[i],
        forall|i: int| 0 <= i < v@.len() ==> #[trigger] v@[i] <= r,
        r == seq_max(v@),
{
    let mut r = v[0];
    let mut i: usize = 1;
    while i < v.len()
        invariant
            1 <= i <= v@.len(),
            exists|k: int| 0 <= k < v@.len() && r == #[trigger] v@[k],
            forall|k: int| 0 <= k < i ==> #[trigger] v@[k] <= r,
        decreases v@.len() - i,
    {
        if v[i] > r {
            r = v[i];
        }
        i += 1;
    }
    proof {
        let k = choose|k: int| 0 <= k < v@.len() && r == #[trigger] v@[k];
        lemma_seq_max_ge(v@, k);
        lemma_seq_max_le(v@, r as int);
    }
    r
}

/// The slot that waiting entry `e` asks to move: for a two-qubit gate the
/// slot of the qubit on the side the shuttle moves away from (the left one
/// when shuttling right), for a rotation (when `rotations_move`) its own slot.
pub open spec fn mover(
    c: &Circuit,
    pos: &QubitPositions,
    shuttle_right: bool,
    rotations_move: bool,
    e: (usize, usize),
) -> Option<int> {
    let q = e.0 as int;
    let i = e.1 as int;
    if c.tape(q)[i] == MS {
        let p = c.partner(q, i).unwrap().0 as int;
        if (pos.slot(q) < pos.slot(p)) == shuttle_right {
            Some(pos.slot(q))
        } else {
            Some(pos.slot(p))
        }
    } else if c.tape(q)[i] == ROT && rotations_move {
        Some(pos.slot(q))
    } else {
        None
    }
}

/// The slot that waiting entry `e` asks to stay: the other qubit of a
/// two-qubit gate.
pub open spec fn stopper(c: &Circuit, pos: &QubitPositions, shuttle_right: bool, e: (usize, usize)) -> Option<
    int,
> {
    let q = e.0 as int;
    let i = e.1 as int;
    if c.tape(q)[i] == MS {
        let p = c.partner(q, i).unwrap().0 as int;
        if (pos.slot(q) < pos.slot(p)) == shuttle_right {
            Some(pos.slot(p))
        } else {
            Some(pos.slot(q))
        }
    } else {
        None
    }
}

/// Marks, for each waiting two-qubit instance, the slot of the qubit that
/// should move toward its partner and the slot of the one that should stay;
/// with `rotations_move`, the slot of a qubit waiting on a rotation moves.
pub(crate) fn mark_move_stop(
    c: &Circuit,
    frontier: &VecDeque<(usize, usize)>,
    pos: &QubitPositions,
    shuttle_right: bool,
    rotations_move: bool,
) -> (r: (Vec<bool>, Vec<bool>))
    requires
        c.wf_native(),
        entries_in_range(c, frontier@),
        pos.wf(),
        pos.len() == c.num_qubits(),
    ensures
        r.0@.len() == c.num_qubits(),
        r.1@.len() == c.num_qubits(),
        (forall|k: int|
            0 <= k < frontier@.len() ==> #[trigger] c.tape(frontier@[k].0 as int)[frontier@[k].1 as int]
                != MS && c.tape(frontier@[k].0 as int)[frontier@[k].1 as int] != ROT) ==> (forall|
            j: int,
        |
            0 <= j < c.num_qubits() ==> !(#[trigger] r.0@[j])) && (forall|j: int|
            0 <= j < c.num_qubits() ==> !(#[trigger] r.1@[j])),
        forall|j: int|
            0 <= j < c.num_qubits() ==> (#[trigger] r.0@[j] <==> exists|k: int|
                0 <= k < frontier@.len() && mover(
                    c,
                    pos,
                    shuttle_right,
                    rotations_move,
                    #[trigger] frontier@[k],
                ) == Some(j)),
        forall|j: int|
            0 <= j < c.num_qubits() ==> (#[trigger] r.1@[j] <==> exists|k: int|
                0 <= k < frontier@.len() && stopper(c, pos, shuttle_right, #[trigger] frontier@[k])
                    == Some(j)),
{
    let n = c.qubits.len();
    let mut move_qubit: Vec<bool> = Vec::new();
    let mut stop_qubit: Vec<bool> = Vec::new();
    let mut k: usize = 0;
    while k < n
        invariant
            k <= n,
            move_qubit@.len() == k,
            stop_qubit@.len() == k,
            forall|j: int| 0 <= j < k ==> !(#[trigger] move_qubit@[j]),
            forall|j: int| 0 <= j < k ==> !(#[trigger] stop_qubit@[j]),
        decreases n - k,
    {
        move_qubit.push(false);
        stop_qubit.push(false);
        k += 1;
    }
    let mut i: usize = 0;
    while i < frontier.len()
        invariant
            n == c.num_qubits(),
            c.wf_native(),
            entries_in_range(c, frontier@),
            pos.wf(),
            pos.len() == n,
            move_qubit@.len() == n,
            stop_qubit@.len() == n,
            i <= frontier@.len(),
            (forall|k: int|
                0 <= k < frontier@.len() ==> #[trigger] c.tape(frontier@[k].0 as int)[frontier@[k].1 as int]
                    != MS && c.tape(frontier@[k].0 as int)[frontier@[k].1 as int] != ROT) ==> (forall|
                j: int,
            |
                0 <= j < n ==> !(#[trigger] move_qubit@[j])) && (forall|j: int|
                0 <= j < n ==> !(#[trigger] stop_qubit@[j])),
            forall|j: int|
                0 <= j < n ==> (#[trigger] move_qubit@[j] <==> exists|k: int|
                    0 <= k < i && mover(c, pos, shuttle_right, rotations_move, #[trigger] frontier@[k])
                        == Some(j)),
            forall|j: int|
                0 <= j < n ==> (#[trigger] stop_qubit@[j] <==> exists|k: int|
                    0 <= k < i && stopper(c, pos, shuttle_right, #[trigger] frontier@[k]) == Some(j)),
        decreases frontier@.len() - i,
    {
        let ghost mv0 = move_qubit@;
        let ghost st0 = stop_qubit@;
        let (qubit_index, node_index) = frontier[i];
        proof {
            assert(entry_in_range(c, frontier@[i as int]));
            assert(c.cx@[qubit_index as int]@.len() == c.tape(qubit_index as int).len());
            assert(c.native_entry_ok(qubit_index as int, node_index as int));
        }
        let node = c.qubits[qubit_index][node_index];
        if node == MS {
            let partner = c.cx[qubit_index][node_index].unwrap();
            let physical = pos.logical_to_physical[qubit_index];
            let partner_physical = pos.logical_to_physical[partner.0];
            proof {
                assert(0 <= pos.slot(qubit_index as int) < n);
                assert(0 <= pos.slot(partner.0 as int) < n);
            }
            if (physical < partner_physical) == shuttle_right {
                move_qubit.set(physical, true);
                stop_qubit.set(partner_physical, true);
            } else {
                move_qubit.set(partner_physical, true);
                stop_qubit.set(physical, true);
            }
        } else if node == ROT && rotations_move {
            let physical = pos.logical_to_physical[qubit_index];
            proof {
                assert(0 <= pos.slot(qubit_index as int) < n);
            }
            move_qubit.set(physical, true);
        }
        proof {
            let e = frontier@[i as int];
            assert forall|j: int| 0 <= j < n implies (#[trigger] move_qubit@[j] <==> exists|k: int|
                0 <= k < i + 1 && mover(c, pos, shuttle_right, rotations_move, #[trigger] frontier@[k])
                    == Some(j)) by {
                if mover(c, pos, shuttle_right, rotations_move, e) == Some(j) {
                    assert(move_qubit@[j]);
                } else {
                    assert(move_qubit@[j] == mv0[j]);
                    if exists|k: int|
                        0 <= k < i + 1 && mover(c, pos, shuttle_right, rotations_move, #[trigger] frontier@[k])
                            == Some(j) {
                        let k = choose|k: int|
                            0 <= k < i + 1 && mover(c, pos, shuttle_right, rotations_move, #[trigger] frontier@[k])
                                == Some(j);
                        assert(k < i);
                    }
                }
            }
            assert forall|j: int| 0 <= j < n implies (#[trigger] stop_qubit@[j] <==> exists|k: int|
                0 <= k < i + 1 && stopper(c, pos, shuttle_right, #[trigger] frontier@[k]) == Some(j)) by {
                if stopper(c, pos, shuttle_right, e) == Some(j) {
                    assert(stop_qubit@[j]);
                } else {
                    assert(stop_qubit@[j] == st0[j]);
                    if exists|k: int|
                        0 <= k < i + 1 && stopper(c, pos, shuttle_right, #[trigger] frontier@[k]) == Some(j) {
                        let k = choose|k: int|
                            0 <= k < i + 1 && stopper(c, pos, shuttle_right, #[trigger] frontier@[k])
                                == Some(j);
                        assert(k < i);
                    }
                }
            }
        }
        i += 1;
    }
    (move_qubit, stop_qubit)
}

/// Swaps the qubits in slots `a` and `b` and records the swap at time `t` on
/// both their tapes.
pub(crate) fn swap_slots_at(sched: &mut Schedule, pos: &mut QubitPositions, a: usize, b: usize, t: u64)
    requires
        old(sched).wf(),
        old(pos).wf(),
        old(pos).len() == old(sched).num_qubits(),
        a < old(pos).len(),
        b < old(pos).len(),
        a != b,
    ensures
        final(sched).wf(),
        final(pos).wf(),
        final(pos).len() == old(pos).len(),
        final(sched).num_qubits() == old(sched).num_qubits(),
        no_correction(old(sched)) ==> no_correction(final(sched)),
        forall|q: int|
            0 <= q < old(sched).num_qubits() ==> (#[trigger] final(sched).tape(q)).len() >= old(
                sched,
            ).tape(q).len(),
        forall|q: int|
            0 <= q < old(sched).num_qubits() ==> #[trigger] gates_of(final(sched).tape(q))
                == gates_of(old(sched).tape(q)),
        forall|b: int| old(sched).times_le(b) && t <= b ==> #[trigger] final(sched).times_le(b),
        old(sched).measures_closed() ==> final(sched).measures_closed(),
        forall|q: int|
            0 <= q < old(sched).num_qubits() ==> #[trigger] work_of(final(sched).tape(q))
                == work_of(old(sched).tape(q)),
{
    let la = pos.physical_to_logical[a];
    let lb = pos.physical_to_logical[b];
    proof {
        assert(0 <= pos.holder(a as int) < pos.len() && pos.slot(pos.holder(a as int)) == a);
        assert(0 <= pos.holder(b as int) < pos.len() && pos.slot(pos.holder(b as int)) == b);
    }
    pos.swap_slots(a, b);
    let ghost s0 = *sched;
    proof {
        lemma_closed_push(s0.tape(la as int), SchedOp::Swap);
    }
    sched.push_op(la, SchedOp::Swap, t);
    let ghost s1 = *sched;
    proof {
        lemma_closed_push(s1.tape(lb as int), SchedOp::Swap);
    }
    sched.push_op(lb, SchedOp::Swap, t);
    proof {
        if no_correction(&s0) {
            assert forall|q: int, i: int|
                0 <= q < sched.num_qubits() && 0 <= i < sched.tape(q).len() implies #[trigger] sched.tape(
                q,
            )[i] != SchedOp::Correction && baseline_op(sched.tape(q)[i]) by {
                if q == lb {
                    if i < s1.tape(q).len() {
                        if q == la {
                            if i < s0.tape(q).len() {
                                assert(baseline_op(s0.tape(q)[i]));
                            }
                        } else {
                            assert(baseline_op(s0.tape(q)[i]));
                        }
                    }
                } else if q == la {
                    if i < s0.tape(q).len() {
                        assert(baseline_op(s0.tape(q)[i]));
                    }
                } else {
                    assert(baseline_op(s0.tape(q)[i]));
                }
            }
        }
        assert forall|q: int| 0 <= q < s0.num_qubits() implies (
        #[trigger] sched.tape(q)).len() >= s0.tape(q).len() by {
            assert(s1.tape(q).len() >= s0.tape(q).len());
        }
        assert forall|q: int| 0 <= q < s0.num_qubits() implies #[trigger] gates_of(sched.tape(q))
            == gates_of(s0.tape(q)) by {
            lemma_gates_push(s0.tape(q), SchedOp::Swap);
            lemma_gates_push(s1.tape(q), SchedOp::Swap);
        }
        assert forall|q: int| 0 <= q < s0.num_qubits() implies #[trigger] work_of(sched.tape(q))
            == work_of(s0.tape(q)) by {
            lemma_work_push(s0.tape(q), SchedOp::Swap);
            lemma_work_push(s1.tape(q), SchedOp::Swap);
        }
    }
}

/// Relies on rand::random::<bool>: a fair coin drawn from the thread's own
/// generator, seeded afresh in each thread.
#[verifier::external_body]
fn fair_coin() -> bool {
    rand::random::<bool>()
}

/// Operations of `k` repeat-until-success rounds: preparation, the two-qubit
/// step, two single-qubit steps and the measurement.
pub open spec fn rus_ops(k: nat) -> Seq<SchedOp>
    decreases k,
{
    if k == 0 {
        Seq::empty()
    } else {
        rus_ops((k - 1) as nat) + seq![
            SchedOp::RusStep,
            SchedOp::MsAncilla,
            SchedOp::RusStep,
            SchedOp::RusStep,
            SchedOp::Measure,
        ]
    }
}

/// Start times of the operations of `k` rounds begun at `t`.
pub open spec fn rus_times(t: int, k: nat) -> Seq<u64>
    decreases k,
{
    if k == 0 {
        Seq::empty()
    } else {
        let b = t + 9 * (k - 1);
        rus_times(t, (k - 1) as nat) + seq![
            b as u64,
            (b + 1) as u64,
            (b + 6) as u64,
            (b + 7) as u64,
            (b + 8) as u64,
        ]
    }
}

/// One more repeat-until-success round before the closing correction keeps
/// a tape closed.
proof fn lemma_round_closed(u: Seq<SchedOp>)
    requires
        closed_tape(u.push(SchedOp::Correction)),
    ensures
        closed_tape(
            (u + seq![
                SchedOp::RusStep,
                SchedOp::MsAncilla,
                SchedOp::RusStep,
                SchedOp::RusStep,
                SchedOp::Measure,
            ]).push(SchedOp::Correction),
        ),
{
    let v = (u + seq![
        SchedOp::RusStep,
        SchedOp::MsAncilla,
        SchedOp::RusStep,
        SchedOp::RusStep,
        SchedOp::Measure,
    ]).push(SchedOp::Correction);
    let w = u.push(SchedOp::Correction);
    assert forall|i: int| 0 <= i < v.len() implies #[trigger] crate::schedule::measure_closed_at(
        v,
        i,
    ) by {
        if i < u.len() {
            assert(crate::schedule::measure_closed_at(w, i));
            assert(v[i] == w[i]);
            if i + 1 < u.len() {
                assert(v[i + 1] == w[i + 1]);
            }
        }
    }
}

/// Rounds of a rotation followed by a correction keep a closed tape closed.
pub(crate) proof fn lemma_rounds_closed(t: Seq<SchedOp>, k: nat)
    requires
        closed_tape(t),
    ensures
        closed_tape((t + rus_ops(k)).push(SchedOp::Correction)),
    decreases k,
{
    if k == 0 {
        assert(t + rus_ops(0) =~= t);
        lemma_closed_push(t, SchedOp::Correction);
    } else {
        lemma_rounds_closed(t, (k - 1) as nat);
        lemma_round_closed(t + rus_ops((k - 1) as nat));
        assert(t + rus_ops(k) =~= (t + rus_ops((k - 1) as nat)) + seq![
            SchedOp::RusStep,
            SchedOp::MsAncilla,
            SchedOp::RusStep,
            SchedOp::RusStep,
            SchedOp::Measure,
        ]);
    }
}

/// Expands a rotation with repeat bound `depth` on qubit `q` into at most
/// `depth` repeat-until-success rounds from time `*sector_time` on, ending
/// early after a round when a fair coin says it succeeded.
pub fn apply_non_clifford(sched: &mut Schedule, q: usize, depth: usize, sector_time: &mut u64)
    requires
        old(sched).wf(),
        q < old(sched).num_qubits(),
        depth <= MAX_DEPTH,
        *old(sector_time) + MAX_OP_TIME <= u64::MAX,
    ensures
        final(sched).wf(),
        final(sched).num_qubits() == old(sched).num_qubits(),
        forall|r: int|
            0 <= r < old(sched).num_qubits() && r != q ==> #[trigger] final(sched).tape(r)
                == old(sched).tape(r) && final(sched).times(r) == old(sched).times(r),
        exists|k: nat|
            {
                &&& if depth == 0 {
                    k == 0
                } else {
                    1 <= k <= depth
                }
                &&& final(sched).tape(q as int) == old(sched).tape(q as int) + rus_ops(k)
                &&& final(sched).times(q as int) == old(sched).times(q as int) + rus_times(
                    *old(sector_time) as int,
                    k,
                )
                &&& *final(sector_time) == *old(sector_time) + 9 * k
            },
        gates_of(final(sched).tape(q as int)) == gates_of(old(sched).tape(q as int)),
        forall|b: int|
            old(sched).times_le(b) && *final(sector_time) <= b ==> #[trigger] final(sched).times_le(
                b,
            ),
{
    let ghost t0 = *sector_time as int;
    let ghost tape0 = sched.tape(q as int);
    let ghost times0 = sched.times(q as int);
    let ghost s0 = *sched;
    let mut j: usize = 0;
    while j < depth
        invariant
            j <= depth <= MAX_DEPTH,
            t0 + MAX_OP_TIME <= u64::MAX,
            sched.wf(),
            q < sched.num_qubits() == s0.num_qubits(),
            forall|r: int|
                0 <= r < s0.num_qubits() && r != q ==> #[trigger] sched.tape(r) == s0.tape(r)
                    && sched.times(r) == s0.times(r),
            sched.tape(q as int) == tape0 + rus_ops(j as nat),
            sched.times(q as int) == times0 + rus_times(t0, j as nat),
            *sector_time == t0 + 9 * j,
            forall|b: int| s0.times_le(b) && *sector_time <= b ==> #[trigger] sched.times_le(b),
        ensures
            j <= depth,
            depth == 0 || j >= 1,
        decreases depth - j,
    {
        let t = *sector_time;
        let ghost before = *sched;
        sched.push_op(q, SchedOp::RusStep, t);
        sched.push_op(q, SchedOp::MsAncilla, t + SQ_TIME);
        sched.push_op(q, SchedOp::RusStep, t + SQ_TIME + TQ_TIME);
        sched.push_op(q, SchedOp::RusStep, t + 2 * SQ_TIME + TQ_TIME);
        sched.push_op(q, SchedOp::Measure, t + 3 * SQ_TIME + TQ_TIME);
        *sector_time = t + 3 * SQ_TIME + TQ_TIME + MEASURE_TIME;
        j += 1;
        proof {
            assert forall|b: int| s0.times_le(b) && *sector_time <= b implies #[trigger] sched.times_le(
                b,
            ) by {
                assert(before.times_le(b));
            }
            assert(sched.tape(q as int) =~= tape0 + rus_ops(j as nat));
            assert(sched.times(q as int) =~= times0 + rus_times(t0, j as nat));
        }
        if fair_coin() {
            break;
        }
    }
    proof {
        let k = j as nat;
        assert({
            &&& if depth == 0 {
                k == 0
            } else {
                1 <= k <= depth
            }
            &&& sched.tape(q as int) == old(sched).tape(q as int) + rus_ops(k)
            &&& sched.times(q as int) == old(sched).times(q as int) + rus_times(t0, k)
            &&& *sector_time == t0 + 9 * k
        });
        lemma_rus_keeps_gates(old(sched).tape(q as int), k);
    }
}

pub(crate) proof fn lemma_prefix_sum_le(s: Seq<int>, k: int)
    requires
        0 <= k <= s.len(),
        forall|i: int| 0 <= i < s.len() ==> #[trigger] s[i] >= 0,
    ensures
        crate::circuit::seq_sum(s.subrange(0, k)) <= crate::circuit::seq_sum(s),
    decreases s.len(),
{
    if k == s.len() {
        assert(s.subrange(0, k) =~= s);
    } else {
        lemma_prefix_sum_le(s.drop_last(), k);
        assert(s.drop_last().subrange(0, k) =~= s.subrange(0, k));
    }
}

/// Whether the circuit's size and the run's parameters are within what the
/// schedulers accept.
pub fn fits_limits(circuit: &Circuit, sector_size: usize, empty_sector: usize, qec_time: u64) -> (r: bool)
    ensures
        r == (circuit.total_ops() <= MAX_OPS && params_ok(
            circuit.num_qubits(),
            sector_size as int,
            empty_sector as int,
        ) && qec_time <= MAX_QEC_TIME),
{
    let ghost lens = circuit.qubits@.map_values(|t: Vec<u8>| t@.len() as int);
    let n = circuit.qubits.len();
    let mut sum: usize = 0;
    let mut q: usize = 0;
    while q < n
        invariant
            q <= n == circuit.num_qubits(),
            lens == circuit.qubits@.map_values(|t: Vec<u8>| t@.len() as int),
            sum == crate::circuit::seq_sum(lens.subrange(0, q as int)),
            sum <= MAX_OPS,
        decreases n - q,
    {
        let len = circuit.qubits[q].len();
        proof {
            assert(lens.subrange(0, q + 1).drop_last() =~= lens.subrange(0, q as int));
        }
        if len > MAX_OPS - sum {
            proof {
                assert forall|i: int| 0 <= i < lens.len() implies #[trigger] lens[i] >= 0 by {}
                lemma_prefix_sum_le(lens, q + 1);
            }
            return false;
        }
        sum = sum + len;
        q += 1;
    }
    proof {
        assert(lens.subrange(0, n as int) =~= lens);
    }
    n <= crate::sector::MAX_QUBITS && 1 <= sector_size && sector_size
        <= crate::sector::MAX_SECTOR_SIZE && 1 <= empty_sector && empty_sector
        <= crate::sector::MAX_EMPTY_SECTORS && qec_time <= MAX_QEC_TIME
}

impl Circuit {
    /// Whether every rotation carries a repeat bound of at most `MAX_DEPTH`,
    /// as the correction-zone schedulers need.
    pub fn has_depths(&self) -> (r: bool)
        requires
            self.shape_ok(),
        ensures
            r == self.depths_ok(),
    {
        let n = self.qubits.len();
        let mut q: usize = 0;
        while q < n
            invariant
                q <= n == self.num_qubits(),
                self.shape_ok(),
                forall|k: int, i: int|
                    0 <= k < q && 0 <= i < self.tape(k).len() && #[trigger] self.tape(k)[i] == ROT
                        ==> self.depth(k, i).is_some() && self.depth(k, i).unwrap() <= MAX_DEPTH,
            decreases n - q,
        {
            let len = self.qubits[q].len();
            proof {
                assert(self.cx@[q as int]@.len() == self.tape(q as int).len());
            }
            let mut i: usize = 0;
            while i < len
                invariant
                    q < n == self.num_qubits(),
                    self.shape_ok(),
                    len == self.tape(q as int).len() == self.depths@[q as int]@.len(),
                    i <= len,
                    forall|k: int, j: int|
                        0 <= k < q && 0 <= j < self.tape(k).len() && #[trigger] self.tape(k)[j] == ROT
                            ==> self.depth(k, j).is_some() && self.depth(k, j).unwrap() <= MAX_DEPTH,
                    forall|j: int|
                        0 <= j < i && #[trigger] self.tape(q as int)[j] == ROT ==> self.depth(
                            q as int,
                            j,
                        ).is_some() && self.depth(q as int, j).unwrap() <= MAX_DEPTH,
                decreases len - i,
            {
                if self.qubits[q][i] == ROT {
                    match self.depths[q][i] {
                        None => {
                            return false;
                        },
                        Some(d) => {
                            if d > MAX_DEPTH {
                                return false;
                            }
                        },
                    }
                }
                i += 1;
            }
            q += 1;
        }
        true
    }
}

} // verus!
