//! The integer side of the reliability model: binomial coefficients, the
//! error channel of each scheduled operation, and counts between corrections.
use vstd::prelude::*;
use crate::schedule::{Schedule, SchedOp};
use vstd::arithmetic::power2::{pow2, lemma_pow2_pos, lemma_pow2_unfold, lemma_pow2_strictly_increases, lemma2_to64_rest};

verus! {

/// Largest `n` whose binomial coefficients the table holds.
pub const MAX_BINOM_N: usize = 62;

/// The binomial coefficient by Pascal's rule.
pub open spec fn binomial(n: nat, k: nat) -> nat
    decreases n,
{
    if k == 0 || k == n {
        1
    } else if k > n {
        0
    } else {
        binomial((n - 1) as nat, (k - 1) as nat) + binomial((n - 1) as nat, k)
    }
}

pub proof fn lemma_binomial_bound(n: nat, k: nat)
    ensures
        binomial(n, k) <= pow2(n),
    decreases n,
{
    lemma_pow2_pos(n);
    if n > 0 {
        lemma_pow2_unfold(n);
    }
    if k == 0 || k == n || k > n {
    } else {
        lemma_binomial_bound((n - 1) as nat, (k - 1) as nat);
        lemma_binomial_bound((n - 1) as nat, k);
    }
}

/// Rows `0..rows.len()` of Pascal's triangle, grown on demand.
pub struct Binom {
    pub rows: Vec<Vec<u64>>,
}

impl Binom {
    /// Row `i` holds the coefficients `C(i, 0..=i)`.
    pub open spec fn wf(&self) -> bool {
        &&& self.rows@.len() <= MAX_BINOM_N + 1
        &&& forall|i: int|
            0 <= i < self.rows@.len() ==> (#[trigger] self.rows@[i])@.len() == i + 1 && forall|
                j: int,
            |
                0 <= j <= i ==> #[trigger] self.rows@[i]@[j] == binomial(i as nat, j as nat)
    }

    pub fn new() -> (r: Binom)
        ensures
            r.wf(),
            r.rows@.len() == 0,
    {
        Binom { rows: Vec::new() }
    }

    /// The coefficient `C(n, k)`, filling the table up to row `n` first.
    pub fn compute(&mut self, n: usize, k: usize) -> (r: u64)
        requires
            old(self).wf(),
            k <= n <= MAX_BINOM_N,
        ensures
            final(self).wf(),
            r == binomial(n as nat, k as nat),
            final(self).rows@.len() >= old(self).rows@.len(),
    {
        while self.rows.len() <= n
            invariant
                self.wf(),
                n <= MAX_BINOM_N,
                self.rows@.len() >= old(self).rows@.len(),
            decreases n + 1 - self.rows@.len(),
        {
            let i = self.rows.len();
            let mut row: Vec<u64> = Vec::new();
            let mut j: usize = 0;
            while j <= i
                invariant
                    self.wf(),
                    i == self.rows@.len() <= n <= MAX_BINOM_N,
                    j <= i + 1,
                    row@.len() == j,
                    forall|m: int| 0 <= m < j ==> #[trigger] row@[m] == binomial(i as nat, m as nat),
                decreases i + 1 - j,
            {
                if j == 0 || j == i {
                    row.push(1);
                } else {
                    let a = self.rows[i - 1][j - 1];
                    let b = self.rows[i - 1][j];
                    proof {
                        assert(self.rows@[i - 1]@.len() == i);
                        lemma_binomial_bound((i - 1) as nat, (j - 1) as nat);
                        lemma_binomial_bound((i - 1) as nat, j as nat);
                        if i - 1 < 62 {
                            lemma_pow2_strictly_increases((i - 1) as nat, 62);
                        }
                        lemma2_to64_rest();
                    }
                    row.push(a + b);
                }
                j += 1;
            }
            self.rows.push(row);
        }
        proof {
            assert(self.rows@[n as int]@.len() == n + 1);
        }
        self.rows[n][k]
    }
}

/// Pascal's rule holds of the table: every computed row starts and ends with
/// 1, and each inner entry is the sum of the two above it.
pub proof fn lemma_table_pascal(b: Binom, n: int, k: int)
    requires
        b.wf(),
        0 <= n < b.rows@.len(),
        0 <= k <= n,
    ensures
        b.rows@[n]@[0] == 1,
        b.rows@[n]@[n] == 1,
        0 < k < n ==> b.rows@[n]@[k] == b.rows@[n - 1]@[k - 1] + b.rows@[n - 1]@[k],
{
    assert(b.rows@[n]@.len() == n + 1);
    assert(b.rows@[n]@[0] == binomial(n as nat, 0));
    assert(b.rows@[n]@[n] == binomial(n as nat, n as nat));
    if 0 < k < n {
        assert(b.rows@[n - 1]@.len() == n);
        assert(b.rows@[n]@[k] == binomial(n as nat, k as nat));
        assert(b.rows@[n - 1]@[k - 1] == binomial((n - 1) as nat, (k - 1) as nat));
        assert(b.rows@[n - 1]@[k] == binomial((n - 1) as nat, k as nat));
    }
}

/// How an operation acts in the depolarizing model: which error magnitude it
/// carries, and whether it composes as a one- or a two-qubit channel.
#[derive(PartialEq, Eq, Structural, Copy, Clone, Debug)]
pub enum ErrorClass {
    /// A native single-qubit gate: one-qubit channel, single-qubit magnitude.
    SingleGate,
    /// A two-qubit gate: two-qubit channel, the baseline magnitude.
    TwoQubitGate,
    /// A swap: two-qubit channel, swap magnitude.
    Swap,
    /// A shuttle step: one-qubit channel, shuttle magnitude.
    Shuttle,
    /// A measurement: one-qubit channel, measurement magnitude.
    Measure,
    /// A correction round.
    Correction,
}

pub open spec fn error_class_spec(op: SchedOp) -> ErrorClass {
    match op {
        SchedOp::Gpi | SchedOp::Gpi2 | SchedOp::Rz | SchedOp::RusStep => ErrorClass::SingleGate,
        SchedOp::Ms | SchedOp::MsAncilla => ErrorClass::TwoQubitGate,
        SchedOp::Swap => ErrorClass::Swap,
        SchedOp::Shuttle => ErrorClass::Shuttle,
        SchedOp::Measure => ErrorClass::Measure,
        SchedOp::Correction => ErrorClass::Correction,
    }
}

/// The error class of a scheduled operation.
pub fn error_class(op: SchedOp) -> (r: ErrorClass)
    ensures
        r == error_class_spec(op),
{
    match op {
        SchedOp::Gpi | SchedOp::Gpi2 | SchedOp::Rz | SchedOp::RusStep => ErrorClass::SingleGate,
        SchedOp::Ms | SchedOp::MsAncilla => ErrorClass::TwoQubitGate,
        SchedOp::Swap => ErrorClass::Swap,
        SchedOp::Shuttle => ErrorClass::Shuttle,
        SchedOp::Measure => ErrorClass::Measure,
        SchedOp::Correction => ErrorClass::Correction,
    }
}

impl ErrorClass {
    /// Whether the class composes as a two-qubit channel.
    pub fn is_two_qubit(self) -> (r: bool)
        ensures
            r == (self == ErrorClass::TwoQubitGate || self == ErrorClass::Swap),
    {
        match self {
            ErrorClass::TwoQubitGate | ErrorClass::Swap => true,
            _ => false,
        }
    }
}

/// Whether every tape of the schedule is non-empty and ends with a
/// correction, as the reliability model requires.
pub fn check_terminated(sched: &Schedule) -> (r: bool)
    ensures
        r == sched.ends_with_correction(),
{
    let n = sched.qubits.len();
    let mut q: usize = 0;
    while q < n
        invariant
            q <= n == sched.num_qubits(),
            forall|k: int|
                0 <= k < q ==> #[trigger] sched.tape(k).len() > 0 && sched.tape(k).last()
                    == SchedOp::Correction,
        decreases n - q,
    {
        let len = sched.qubits[q].len();
        if len == 0 {
            proof {
                assert(!(sched.tape(q as int).len() > 0));
            }
            return false;
        }
        if sched.qubits[q][len - 1] != SchedOp::Correction {
            proof {
                assert(sched.tape(q as int).last() != SchedOp::Correction);
            }
            return false;
        }
        q += 1;
    }
    true
}

/// Operations, swaps and shuttle steps since the last correction.
pub struct IntervalCount {
    pub ops: usize,
    pub swaps: usize,
    pub shuttles: usize,
}

/// The closed intervals of a tape (one per correction, counting what came
/// after the previous correction), and the counts of the open interval.
pub open spec fn intervals(t: Seq<SchedOp>) -> (Seq<(int, int, int)>, (int, int, int))
    decreases t.len(),
{
    if t.len() == 0 {
        (Seq::empty(), (0, 0, 0))
    } else {
        let (closed, (o, w, h)) = intervals(t.drop_last());
        match t.last() {
            SchedOp::Correction => (closed.push((o, w, h)), (0, 0, 0)),
            SchedOp::Swap => (closed, (o + 1, w + 1, h)),
            SchedOp::Shuttle => (closed, (o + 1, w, h + 1)),
            _ => (closed, (o + 1, w, h)),
        }
    }
}

/// Number of occurrences of `op` in `t`.
pub open spec fn count_op(t: Seq<SchedOp>, op: SchedOp) -> int
    decreases t.len(),
{
    if t.len() == 0 {
        0
    } else {
        count_op(t.drop_last(), op) + if t.last() == op {
            1int
        } else {
            0int
        }
    }
}

proof fn lemma_intervals_bounded(t: Seq<SchedOp>)
    ensures
        ({
            let (closed, (o, w, h)) = intervals(t);
            &&& 0 <= w <= o
            &&& 0 <= h <= o
            &&& o <= t.len()
        }),
    decreases t.len(),
{
    if t.len() > 0 {
        lemma_intervals_bounded(t.drop_last());
    }
}

/// Counts of shuttle steps, swaps and corrections over the whole schedule,
/// and the counts of every interval between corrections, tape after tape.
pub struct Overhead {
    pub shuttle_count: usize,
    pub swap_count: usize,
    pub qec_count: usize,
    pub intervals: Vec<IntervalCount>,
}

pub open spec fn view_interval(c: IntervalCount) -> (int, int, int) {
    (c.ops as int, c.swaps as int, c.shuttles as int)
}

/// The closed intervals of tapes `0..q`, in order.
pub open spec fn all_intervals(s: &Schedule, q: int) -> Seq<(int, int, int)>
    decreases q,
{
    if q <= 0 {
        Seq::empty()
    } else {
        all_intervals(s, q - 1) + intervals(s.tape(q - 1)).0
    }
}

/// Occurrences of `op` on tapes `0..q`.
pub open spec fn total_count(s: &Schedule, q: int, op: SchedOp) -> int
    decreases q,
{
    if q <= 0 {
        0
    } else {
        total_count(s, q - 1, op) + count_op(s.tape(q - 1), op)
    }
}

/// Number of operations on tapes `0..q`.
pub open spec fn total_len(s: &Schedule, q: int) -> int
    decreases q,
{
    if q <= 0 {
        0
    } else {
        total_len(s, q - 1) + s.tape(q - 1).len()
    }
}

proof fn lemma_count_le_len(t: Seq<SchedOp>, op: SchedOp)
    ensures
        0 <= count_op(t, op) <= t.len(),
    decreases t.len(),
{
    if t.len() > 0 {
        lemma_count_le_len(t.drop_last(), op);
    }
}

proof fn lemma_total_count_le(s: &Schedule, q: int, op: SchedOp)
    ensures
        0 <= total_count(s, q, op) <= total_len(s, q),
    decreases q,
{
    if q > 0 {
        lemma_total_count_le(s, q - 1, op);
        lemma_count_le_len(s.tape(q - 1), op);
    }
}

proof fn lemma_total_len_mono(s: &Schedule, a: int, b: int)
    requires
        0 <= a <= b,
    ensures
        total_len(s, a) <= total_len(s, b),
    decreases b,
{
    if a < b {
        lemma_total_len_mono(s, a, b - 1);
    }
}

/// The number of operations in the whole schedule, if it fits in `usize`.
pub fn schedule_len(sched: &Schedule) -> (r: Option<usize>)
    ensures
        r.is_some() == (total_len(sched, sched.num_qubits()) <= usize::MAX),
        r.is_some() ==> r.unwrap() == total_len(sched, sched.num_qubits()),
{
    let n = sched.qubits.len();
    let mut sum: usize = 0;
    let mut q: usize = 0;
    while q < n
        invariant
            q <= n == sched.num_qubits(),
            sum == total_len(sched, q as int),
        decreases n - q,
    {
        let len = sched.qubits[q].len();
        if sum > usize::MAX - len {
            proof {
                lemma_total_len_mono(sched, q as int + 1, n as int);
            }
            return None;
        }
        sum = sum + len;
        q += 1;
    }
    Some(sum)
}

/// Counts the overhead operations of a terminated schedule: shuttle steps,
/// swaps and corrections in all, and for each correction the operations,
/// swaps and shuttle steps since the previous correction on its tape.
pub fn count_overhead(sched: &Schedule) -> (r: Overhead)
    requires
        sched.ends_with_correction(),
        total_len(sched, sched.num_qubits()) <= usize::MAX,
    ensures
        r.shuttle_count == total_count(sched, sched.num_qubits(), SchedOp::Shuttle),
        r.swap_count == total_count(sched, sched.num_qubits(), SchedOp::Swap),
        r.qec_count == total_count(sched, sched.num_qubits(), SchedOp::Correction),
        r.intervals@.map_values(|c: IntervalCount| view_interval(c)) == all_intervals(
            sched,
            sched.num_qubits(),
        ),
{
    let n = sched.qubits.len();
    let mut shuttle_count: usize = 0;
    let mut swap_count: usize = 0;
    let mut qec_count: usize = 0;
    let mut out: Vec<IntervalCount> = Vec::new();
    let mut q: usize = 0;
    while q < n
        invariant
            q <= n == sched.num_qubits(),
            sched.ends_with_correction(),
            total_len(sched, n as int) <= usize::MAX,
            shuttle_count == total_count(sched, q as int, SchedOp::Shuttle),
            swap_count == total_count(sched, q as int, SchedOp::Swap),
            qec_count == total_count(sched, q as int, SchedOp::Correction),
            out@.map_values(|c: IntervalCount| view_interval(c)) == all_intervals(sched, q as int),
        decreases n - q,
    {
        let ghost base = out@.map_values(|c: IntervalCount| view_interval(c));
        let len = sched.qubits[q].len();
        let mut ops: usize = 0;
        let mut swaps: usize = 0;
        let mut shuttles: usize = 0;
        let mut i: usize = 0;
        proof {
            lemma_total_len_mono(sched, q as int + 1, n as int);
            lemma_total_count_le(sched, q as int, SchedOp::Shuttle);
            lemma_total_count_le(sched, q as int, SchedOp::Swap);
            lemma_total_count_le(sched, q as int, SchedOp::Correction);
        }
        while i < len
            invariant
                q < n == sched.num_qubits(),
                len == sched.tape(q as int).len(),
                i <= len,
                total_len(sched, q as int) + len <= usize::MAX,
                shuttle_count == total_count(sched, q as int, SchedOp::Shuttle)
                    + count_op(sched.tape(q as int).subrange(0, i as int), SchedOp::Shuttle),
                swap_count == total_count(sched, q as int, SchedOp::Swap) + count_op(
                    sched.tape(q as int).subrange(0, i as int),
                    SchedOp::Swap,
                ),
                qec_count == total_count(sched, q as int, SchedOp::Correction) + count_op(
                    sched.tape(q as int).subrange(0, i as int),
                    SchedOp::Correction,
                ),
                shuttle_count <= total_len(sched, q as int) + i,
                swap_count <= total_len(sched, q as int) + i,
                qec_count <= total_len(sched, q as int) + i,
                out@.map_values(|c: IntervalCount| view_interval(c)) == base + intervals(
                    sched.tape(q as int).subrange(0, i as int),
                ).0,
                (ops as int, swaps as int, shuttles as int) == intervals(
                    sched.tape(q as int).subrange(0, i as int),
                ).1,
            decreases len - i,
        {
            let ghost pre = sched.tape(q as int).subrange(0, i as int);
            let ghost next = sched.tape(q as int).subrange(0, i as int + 1);
            proof {
                assert(next.drop_last() =~= pre);
                lemma_intervals_bounded(pre);
            }
            let op = sched.qubits[q][i];
            let ghost before = out@;
            proof {
                assert(next.last() == op);
            }
            match op {
                SchedOp::Correction => {
                    out.push(IntervalCount { ops, swaps, shuttles });
                    qec_count += 1;
                    ops = 0;
                    swaps = 0;
                    shuttles = 0;
                },
                SchedOp::Swap => {
                    ops += 1;
                    swaps += 1;
                    swap_count += 1;
                },
                SchedOp::Shuttle => {
                    ops += 1;
                    shuttles += 1;
                    shuttle_count += 1;
                },
                _ => {
                    ops += 1;
                },
            }
            i += 1;
            proof {
                if op == SchedOp::Correction {
                    assert(out@ == before.push(out@.last()));
                    assert(out@.map_values(|c: IntervalCount| view_interval(c)) =~= before.map_values(
                        |c: IntervalCount| view_interval(c),
                    ).push(view_interval(out@.last())));
                } else {
                    assert(out@ == before);
                }
                assert(out@.map_values(|c: IntervalCount| view_interval(c)) =~= base + intervals(
                    next,
                ).0);
            }
        }
        proof {
            assert(sched.tape(q as int).subrange(0, len as int) =~= sched.tape(q as int));
            assert(sched.tape(q as int).len() > 0);
        }
        q += 1;
        proof {
            assert(all_intervals(sched, q as int) == all_intervals(sched, q - 1) + intervals(
                sched.tape(q - 1),
            ).0);
        }
    }
    Overhead { shuttle_count, swap_count, qec_count, intervals: out }
}

} // verus!
