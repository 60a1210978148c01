//! The schedule: per-qubit timestamped operations with paired two-qubit
//! instances.
use vstd::prelude::*;

verus! {

/// An operation on a scheduled tape.
#[derive(PartialEq, Eq, Structural, Copy, Clone, Debug)]
pub enum SchedOp {
    Gpi,
    Gpi2,
    Rz,
    Ms,
    /// A single-qubit step of a rotation's repeat-until-success round.
    RusStep,
    /// The two-qubit step of a rotation's repeat-until-success round, with an
    /// ancilla outside the circuit.
    MsAncilla,
    Swap,
    Shuttle,
    Measure,
    Correction,
}

impl SchedOp {
    /// The one-letter name of the operation.
    pub fn symbol(self) -> (r: char)
        ensures
            r == self.symbol_spec(),
    {
        match self {
            SchedOp::Gpi => 'g',
            SchedOp::Gpi2 => 'p',
            SchedOp::Rz => 'r',
            SchedOp::Ms => 'm',
            SchedOp::RusStep => 'p',
            SchedOp::MsAncilla => 'm',
            SchedOp::Swap => 's',
            SchedOp::Shuttle => 'h',
            SchedOp::Measure => 'M',
            SchedOp::Correction => 'q',
        }
    }

    pub open spec fn symbol_spec(self) -> char {
        match self {
            SchedOp::Gpi => 'g',
            SchedOp::Gpi2 => 'p',
            SchedOp::Rz => 'r',
            SchedOp::Ms => 'm',
            SchedOp::RusStep => 'p',
            SchedOp::MsAncilla => 'm',
            SchedOp::Swap => 's',
            SchedOp::Shuttle => 'h',
            SchedOp::Measure => 'M',
            SchedOp::Correction => 'q',
        }
    }
}

pub struct Schedule {
    /// One tape of operations per qubit.
    pub qubits: Vec<Vec<SchedOp>>,
    /// Start time of each operation, parallel to `qubits`.
    pub timestamp: Vec<Vec<u64>>,
    /// For an `Ms` operation, its partner (qubit, position); parallel to `qubits`.
    pub cx: Vec<Vec<Option<(usize, usize)>>>,
}

impl Schedule {
    pub open spec fn num_qubits(&self) -> int {
        self.qubits@.len() as int
    }

    pub open spec fn tape(&self, q: int) -> Seq<SchedOp> {
        self.qubits@[q]@
    }

    pub open spec fn times(&self, q: int) -> Seq<u64> {
        self.timestamp@[q]@
    }

    pub open spec fn partner(&self, q: int, i: int) -> Option<(usize, usize)> {
        self.cx@[q]@[i]
    }

    /// `(q, i)` has a partner exactly when it is an `Ms`, and the partner is an
    /// `Ms` on another qubit that points back and starts at the same time.
    pub open spec fn entry_ok(&self, q: int, i: int) -> bool {
        &&& (self.tape(q)[i] == SchedOp::Ms) == self.partner(q, i).is_some()
        &&& self.partner(q, i).is_some() ==> {
            let (p, j) = self.partner(q, i).unwrap();
            &&& p < self.num_qubits()
            &&& p != q
            &&& j < self.tape(p as int).len()
            &&& self.tape(p as int)[j as int] == SchedOp::Ms
            &&& self.partner(p as int, j as int) == Some((q as usize, i as usize))
            &&& self.times(p as int)[j as int] == self.times(q)[i]
        }
    }

    pub open spec fn shape_ok(&self) -> bool {
        &&& self.timestamp@.len() == self.qubits@.len()
        &&& self.cx@.len() == self.qubits@.len()
        &&& forall|q: int|
            0 <= q < self.num_qubits() ==> (#[trigger] self.timestamp@[q])@.len() == self.tape(
                q,
            ).len() && self.cx@[q]@.len() == self.tape(q).len()
    }

    pub open spec fn wf(&self) -> bool {
        &&& self.shape_ok()
        &&& forall|q: int, i: int|
            0 <= q < self.num_qubits() && 0 <= i < self.tape(q).len()
                ==> #[trigger] self.entry_ok(q, i)
    }

    /// Every operation starts by time `b`.
    pub open spec fn times_le(&self, b: int) -> bool {
        forall|q: int, i: int|
            0 <= q < self.num_qubits() && 0 <= i < self.times(q).len() ==> #[trigger] self.times(
                q,
            )[i] <= b
    }

    /// Every measurement is directly followed by the first step of another
    /// repeat-until-success round or by a correction.
    pub open spec fn measures_closed(&self) -> bool {
        forall|q: int| 0 <= q < self.num_qubits() ==> #[trigger] closed_tape(self.tape(q))
    }

    /// Every tape is non-empty and ends with a correction.
    pub open spec fn ends_with_correction(&self) -> bool {
        forall|q: int|
            0 <= q < self.num_qubits() ==> #[trigger] self.tape(q).len() > 0 && self.tape(q).last()
                == SchedOp::Correction
    }

    /// `n` empty tapes.
    pub fn new(n: usize) -> (r: Schedule)
        ensures
            r.wf(),
            r.num_qubits() == n,
            forall|q: int| 0 <= q < n ==> (#[trigger] r.tape(q)).len() == 0,
    {
        let mut qubits: Vec<Vec<SchedOp>> = Vec::new();
        let mut timestamp: Vec<Vec<u64>> = Vec::new();
        let mut cx: Vec<Vec<Option<(usize, usize)>>> = Vec::new();
        let mut i: usize = 0;
        while i < n
            invariant
                i <= n,
                qubits@.len() == i,
                timestamp@.len() == i,
                cx@.len() == i,
                forall|q: int|
                    0 <= q < i ==> qubits@[q]@.len() == 0 && timestamp@[q]@.len() == 0
                        && cx@[q]@.len() == 0,
            decreases n - i,
        {
            qubits.push(Vec::new());
            timestamp.push(Vec::new());
            cx.push(Vec::new());
            i += 1;
        }
        Schedule { qubits, timestamp, cx }
    }

    /// Appends a single-qubit operation at time `t` to tape `q`.
    pub fn push_op(&mut self, q: usize, op: SchedOp, t: u64)
        requires
            old(self).wf(),
            q < old(self).num_qubits(),
            op != SchedOp::Ms,
        ensures
            final(self).wf(),
            final(self).num_qubits() == old(self).num_qubits(),
            final(self).tape(q as int) == old(self).tape(q as int).push(op),
            final(self).times(q as int) == old(self).times(q as int).push(t),
            forall|r: int|
                0 <= r < old(self).num_qubits() && r != q ==> #[trigger] final(self).tape(r)
                    == old(self).tape(r) && final(self).times(r) == old(self).times(r),
            forall|b: int| old(self).times_le(b) && t <= b ==> #[trigger] final(self).times_le(b),
            old(self).measures_closed() && (closed_tape(old(self).tape(q as int)) ==> closed_tape(
                old(self).tape(q as int).push(op),
            )) ==> final(self).measures_closed(),
    {
        self.qubits[q].push(op);
        self.timestamp[q].push(t);
        self.cx[q].push(None);
        proof {
            let o = old(self);
            assert forall|r: int| 0 <= r < self.num_qubits() implies (
            #[trigger] self.timestamp@[r])@.len() == self.tape(r).len() && self.cx@[r]@.len()
                == self.tape(r).len() by {
                assert(o.timestamp@[r]@.len() == o.tape(r).len());
            }
            assert forall|r: int, i: int|
                0 <= r < self.num_qubits() && 0 <= i < self.tape(r).len() implies #[trigger] self.entry_ok(
                r,
                i,
            ) by {
                if r != q || i < o.tape(q as int).len() {
                    assert(o.entry_ok(r, i));
                    assert(o.timestamp@[r]@.len() == o.tape(r).len());
                    if o.partner(r, i).is_some() {
                        let (p, j) = o.partner(r, i).unwrap();
                        assert(o.timestamp@[p as int]@.len() == o.tape(p as int).len());
                    }
                }
            }
            assert forall|b: int| o.times_le(b) && t <= b implies #[trigger] self.times_le(b) by {
                assert forall|r: int, i: int|
                    0 <= r < self.num_qubits() && 0 <= i < self.times(r).len() implies #[trigger] self.times(
                    r,
                )[i] <= b by {
                    if r != q || i < o.times(q as int).len() {
                        assert(self.times(r)[i] == o.times(r)[i]);
                    }
                }
            }
        if o.measures_closed() && (closed_tape(o.tape(q as int)) ==> closed_tape(
                o.tape(q as int).push(op),
            )) {
                assert forall|r: int| 0 <= r < self.num_qubits() implies #[trigger] closed_tape(
                    self.tape(r),
                ) by {
                    assert(closed_tape(o.tape(r)));
                }
            }
        }
    }

    /// Appends one `Ms` at time `t` to tapes `q` and `p`, each naming the other.
    #[verifier::rlimit(40)]
    pub fn push_pair(&mut self, q: usize, p: usize, t: u64)
        requires
            old(self).wf(),
            q < old(self).num_qubits(),
            p < old(self).num_qubits(),
            q != p,
        ensures
            final(self).wf(),
            final(self).num_qubits() == old(self).num_qubits(),
            final(self).tape(q as int) == old(self).tape(q as int).push(SchedOp::Ms),
            final(self).tape(p as int) == old(self).tape(p as int).push(SchedOp::Ms),
            final(self).times(q as int) == old(self).times(q as int).push(t),
            final(self).times(p as int) == old(self).times(p as int).push(t),
            forall|r: int|
                0 <= r < old(self).num_qubits() && r != q && r != p ==> #[trigger] final(self).tape(
                    r,
                ) == old(self).tape(r) && final(self).times(r) == old(self).times(r),
            forall|b: int| old(self).times_le(b) && t <= b ==> #[trigger] final(self).times_le(b),
            old(self).measures_closed() ==> final(self).measures_closed(),
    {
        let iq = self.qubits[q].len();
        let ip = self.qubits[p].len();
        proof {
            assert(old(self).timestamp@[q as int]@.len() == old(self).tape(q as int).len());
            assert(old(self).timestamp@[p as int]@.len() == old(self).tape(p as int).len());
        }
        self.qubits[q].push(SchedOp::Ms);
        self.timestamp[q].push(t);
        self.cx[q].push(Some((p, ip)));
        self.qubits[p].push(SchedOp::Ms);
        self.timestamp[p].push(t);
        self.cx[p].push(Some((q, iq)));
        proof {
            let o = old(self);
            assert forall|r: int| 0 <= r < self.num_qubits() implies (
            #[trigger] self.timestamp@[r])@.len() == self.tape(r).len() && self.cx@[r]@.len()
                == self.tape(r).len() by {
                assert(o.timestamp@[r]@.len() == o.tape(r).len());
            }
            assert forall|r: int, i: int|
                0 <= r < self.num_qubits() && 0 <= i < self.tape(r).len() implies #[trigger] self.entry_ok(
                r,
                i,
            ) by {
                if (r != q || i < iq) && (r != p || i < ip) {
                    assert(o.entry_ok(r, i));
                    if o.partner(r, i).is_some() {
                        let (pp, j) = o.partner(r, i).unwrap();
                        assert(o.timestamp@[pp as int]@.len() == o.tape(pp as int).len());
                    }
                }
            }
            assert forall|b: int| o.times_le(b) && t <= b implies #[trigger] self.times_le(b) by {
                assert forall|r: int, i: int|
                    0 <= r < self.num_qubits() && 0 <= i < self.times(r).len() implies #[trigger] self.times(
                    r,
                )[i] <= b by {
                    if (r != q || i < iq) && (r != p || i < ip) {
                        assert(self.times(r)[i] == o.times(r)[i]);
                    }
                }
            }
        if o.measures_closed() {
                lemma_closed_push(o.tape(q as int), SchedOp::Ms);
                lemma_closed_push(o.tape(p as int), SchedOp::Ms);
                assert forall|r: int| 0 <= r < self.num_qubits() implies #[trigger] closed_tape(
                    self.tape(r),
                ) by {
                    assert(closed_tape(o.tape(r)));
                }
            }
        }
    }

    /// Appends `op` at time `t` to every tape.
    pub fn push_all(&mut self, op: SchedOp, t: u64)
        requires
            old(self).wf(),
            op != SchedOp::Ms,
        ensures
            final(self).wf(),
            final(self).num_qubits() == old(self).num_qubits(),
            forall|q: int|
                0 <= q < old(self).num_qubits() ==> #[trigger] final(self).tape(q) == old(
                    self,
                ).tape(q).push(op) && final(self).times(q) == old(self).times(q).push(t),
            forall|b: int| old(self).times_le(b) && t <= b ==> #[trigger] final(self).times_le(b),
            old(self).measures_closed() && op != SchedOp::Measure ==> final(self).measures_closed(),
    {
        let n = self.qubits.len();
        let mut q: usize = 0;
        while q < n
            invariant
                q <= n == old(self).num_qubits() == self.num_qubits(),
                self.wf(),
                op != SchedOp::Ms,
                forall|r: int|
                    0 <= r < q ==> #[trigger] self.tape(r) == old(self).tape(r).push(op)
                        && self.times(r) == old(self).times(r).push(t),
                forall|r: int|
                    q <= r < n ==> #[trigger] self.tape(r) == old(self).tape(r) && self.times(r)
                        == old(self).times(r),
                forall|b: int| old(self).times_le(b) && t <= b ==> #[trigger] self.times_le(b),
                old(self).measures_closed() && op != SchedOp::Measure ==> self.measures_closed(),
            decreases n - q,
        {
            proof {
                if op != SchedOp::Measure {
                    lemma_closed_push(self.tape(q as int), op);
                }
            }
            self.push_op(q, op, t);
            q += 1;
        }
    }
}

/// The partner relation of a well-formed schedule is symmetric: when
/// instance `(q, i)` names `(p, j)` as its partner, `(p, j)` names `(q, i)`,
/// and the two start at the same time.
pub proof fn lemma_partners_symmetric(s: Schedule, q: int, i: int)
    requires
        s.wf(),
        0 <= q < s.num_qubits(),
        0 <= i < s.tape(q).len(),
        s.partner(q, i).is_some(),
    ensures
        ({
            let (p, j) = s.partner(q, i).unwrap();
            &&& 0 <= p < s.num_qubits()
            &&& 0 <= j < s.tape(p as int).len()
            &&& s.partner(p as int, j as int) == Some((q as usize, i as usize))
            &&& s.times(p as int)[j as int] == s.times(q)[i]
        }),
{
    assert(s.entry_ok(q, i));
}


/// The circuit code that a scheduled operation carries out, if it is one of
/// the circuit's own gates.
pub open spec fn gate_code(op: SchedOp) -> Option<u8> {
    match op {
        SchedOp::Gpi => Some(crate::circuit::GPI),
        SchedOp::Gpi2 => Some(crate::circuit::GPI2),
        SchedOp::Rz => Some(crate::circuit::ROT),
        SchedOp::Ms => Some(crate::circuit::MS),
        _ => None,
    }
}

/// The circuit gates on a scheduled tape, in order.
pub open spec fn gates_of(t: Seq<SchedOp>) -> Seq<u8>
    decreases t.len(),
{
    if t.len() == 0 {
        Seq::empty()
    } else {
        match gate_code(t.last()) {
            Some(c) => gates_of(t.drop_last()).push(c),
            None => gates_of(t.drop_last()),
        }
    }
}

pub proof fn lemma_gates_push(t: Seq<SchedOp>, op: SchedOp)
    ensures
        gates_of(t.push(op)) == match gate_code(op) {
            Some(c) => gates_of(t).push(c),
            None => gates_of(t),
        },
{
    assert(t.push(op).drop_last() =~= t);
}


/// Every measurement on `t` is directly followed by the first step of a
/// repeat-until-success round or by a correction.
pub open spec fn closed_tape(t: Seq<SchedOp>) -> bool {
    forall|i: int| 0 <= i < t.len() ==> #[trigger] measure_closed_at(t, i)
}

/// Position `i` of `t` is no measurement, or one followed by a round's first
/// step or a correction.
pub open spec fn measure_closed_at(t: Seq<SchedOp>, i: int) -> bool {
    t[i] == SchedOp::Measure ==> i + 1 < t.len() && (t[i + 1] == SchedOp::RusStep || t[i + 1]
        == SchedOp::Correction)
}

/// Appending anything but a measurement to a closed tape keeps it closed.
pub proof fn lemma_closed_push(t: Seq<SchedOp>, op: SchedOp)
    requires
        op != SchedOp::Measure,
    ensures
        closed_tape(t) ==> closed_tape(t.push(op)),
{
    if closed_tape(t) {
        assert forall|i: int| 0 <= i < t.push(op).len() implies #[trigger] measure_closed_at(
            t.push(op),
            i,
        ) by {
            if i < t.len() {
                assert(measure_closed_at(t, i));
            }
        }
    }
}

} // verus!
