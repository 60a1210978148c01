//! The circuit: one tape of operations per qubit, with the partner of each
//! two-qubit instance and the repeat bound of each native rotation.
use vstd::prelude::*;

verus! {

/// Largest repeat bound of a rotation that the schedulers accept.
pub const MAX_DEPTH: usize = 0x1_0000;

/// Largest total number of instances on all tapes that the schedulers accept.
pub const MAX_OPS: usize = 0x1000_0000;

/// Operation codes on a circuit's tapes.
pub const GPI: u8 = 0x67;

pub const GPI2: u8 = 0x70;

pub const ROT: u8 = 0x72;

pub const MS: u8 = 0x6d;

pub const CX_CONTROL: u8 = 0x63;

pub const CX_TARGET: u8 = 0x65;

/// Gates of the generic gate set.
#[derive(PartialEq, Eq, Structural, Copy, Clone, Debug)]
pub enum NodeType {
    X,
    Y,
    Z,
    H,
    S,
    SDG,
    RZ,
    CX,
}

impl NodeType {
    pub open spec fn byte_of(self) -> u8 {
        match self {
            NodeType::X => 0x78u8,
            NodeType::Y => 0x79u8,
            NodeType::Z => 0x7au8,
            NodeType::H => 0x68u8,
            NodeType::S => 0x73u8,
            NodeType::SDG => 0x64u8,
            NodeType::RZ => ROT,
            NodeType::CX => CX_CONTROL,
        }
    }

    /// The tape code of this gate (on the control qubit for `CX`).
    pub fn into_byte(self) -> (r: u8)
        ensures
            r == self.byte_of(),
    {
        match self {
            NodeType::X => 0x78,
            NodeType::Y => 0x79,
            NodeType::Z => 0x7a,
            NodeType::H => 0x68,
            NodeType::S => 0x73,
            NodeType::SDG => 0x64,
            NodeType::RZ => ROT,
            NodeType::CX => CX_CONTROL,
        }
    }
}

pub open spec fn is_native_op(b: u8) -> bool {
    b == GPI || b == GPI2 || b == ROT || b == MS
}

pub open spec fn is_two_qubit_op(b: u8) -> bool {
    b == MS || b == CX_CONTROL || b == CX_TARGET
}

/// Sum of a sequence of integers.
pub open spec fn seq_sum(s: Seq<int>) -> int
    decreases s.len(),
{
    if s.len() == 0 {
        0
    } else {
        seq_sum(s.drop_last()) + s.last()
    }
}

pub proof fn lemma_seq_sum_update(s: Seq<int>, i: int, v: int)
    requires
        0 <= i < s.len(),
    ensures
        seq_sum(s.update(i, v)) == seq_sum(s) - s[i] + v,
    decreases s.len(),
{
    if i == s.len() - 1 {
        assert(s.update(i, v).drop_last() =~= s.drop_last());
    } else {
        lemma_seq_sum_update(s.drop_last(), i, v);
        assert(s.update(i, v).drop_last() =~= s.drop_last().update(i, v));
    }
}

pub proof fn lemma_seq_sum_le(a: Seq<int>, b: Seq<int>)
    requires
        a.len() == b.len(),
        forall|i: int| 0 <= i < a.len() ==> a[i] <= b[i],
    ensures
        seq_sum(a) <= seq_sum(b),
    decreases a.len(),
{
    if a.len() > 0 {
        lemma_seq_sum_le(a.drop_last(), b.drop_last());
    }
}

#[derive(Clone, Debug)]
pub struct Circuit {
    /// One tape of operation codes per qubit.
    pub qubits: Vec<Vec<u8>>,
    /// For a two-qubit instance, its partner instance (qubit, position).
    pub cx: Vec<Vec<Option<(usize, usize)>>>,
    /// Rotation angles of the generic gate set, as the text spells them.
    pub parameters: Vec<Vec<u8>>,
    /// For a native rotation, its repeat bound where one was given.
    pub depths: Vec<Vec<Option<usize>>>,
    /// How many times the circuit is repeated.
    pub approx_factor: usize,
}

impl Circuit {
    pub open spec fn num_qubits(&self) -> int {
        self.qubits@.len() as int
    }

    pub open spec fn tape(&self, q: int) -> Seq<u8> {
        self.qubits@[q]@
    }

    pub open spec fn partner(&self, q: int, i: int) -> Option<(usize, usize)> {
        self.cx@[q]@[i]
    }

    pub open spec fn depth(&self, q: int, i: int) -> Option<usize> {
        self.depths@[q]@[i]
    }

    /// The tapes, partner tables and repeat bounds as plain sequences.
    pub open spec fn model(&self) -> (
        Seq<Seq<u8>>,
        Seq<Seq<Option<(usize, usize)>>>,
        Seq<Seq<Option<usize>>>,
    ) {
        (
            self.qubits@.map_values(|t: Vec<u8>| t@),
            self.cx@.map_values(|t: Vec<Option<(usize, usize)>>| t@),
            self.depths@.map_values(|t: Vec<Option<usize>>| t@),
        )
    }

    /// Number of instances on all tapes together.
    pub open spec fn total_ops(&self) -> int {
        seq_sum(self.qubits@.map_values(|t: Vec<u8>| t@.len() as int))
    }

    /// The side tables run parallel to the tapes.
    pub open spec fn shape_ok(&self) -> bool {
        &&& self.cx@.len() == self.qubits@.len()
        &&& self.depths@.len() == self.qubits@.len()
        &&& forall|q: int|
            0 <= q < self.num_qubits() ==> (#[trigger] self.cx@[q])@.len() == self.tape(q).len()
                && self.depths@[q]@.len() == self.tape(q).len()
    }

    /// Instance `(q, i)` has a partner exactly when it is a two-qubit
    /// instance, on another qubit, of a two-qubit code, pointing back.
    pub open spec fn partner_ok(&self, q: int, i: int) -> bool {
        &&& is_two_qubit_op(self.tape(q)[i]) == self.partner(q, i).is_some()
        &&& self.partner(q, i).is_some() ==> {
            let (p, j) = self.partner(q, i).unwrap();
            &&& p < self.num_qubits()
            &&& p != q
            &&& j < self.tape(p as int).len()
            &&& is_two_qubit_op(self.tape(p as int)[j as int])
            &&& self.partner(p as int, j as int) == Some((q as usize, i as usize))
        }
    }

    /// Instance `(q, i)` of a native circuit.
    pub open spec fn native_entry_ok(&self, q: int, i: int) -> bool {
        &&& is_native_op(self.tape(q)[i])
        &&& self.partner_ok(q, i)
        &&& self.partner(q, i).is_some() ==> self.tape(
            self.partner(q, i).unwrap().0 as int,
        )[self.partner(q, i).unwrap().1 as int] == MS
        &&& self.tape(q)[i] != ROT ==> self.depth(q, i).is_none()
    }

    /// Every instance's partner entry is consistent.
    pub open spec fn wf_partners(&self) -> bool {
        &&& self.shape_ok()
        &&& forall|q: int, i: int|
            0 <= q < self.num_qubits() && 0 <= i < self.tape(q).len()
                ==> #[trigger] self.partner_ok(q, i)
    }

    /// A circuit in the native gate set with symmetric partners.
    pub open spec fn wf_native(&self) -> bool {
        &&& self.wf_partners()
        &&& forall|q: int, i: int|
            0 <= q < self.num_qubits() && 0 <= i < self.tape(q).len()
                ==> #[trigger] self.native_entry_ok(q, i)
    }

    /// Every rotation carries a repeat bound of at most `MAX_DEPTH`.
    pub open spec fn depths_ok(&self) -> bool {
        forall|q: int, i: int|
            0 <= q < self.num_qubits() && 0 <= i < self.tape(q).len() && #[trigger] self.tape(
                q,
            )[i] == ROT ==> self.depth(q, i).is_some() && self.depth(q, i).unwrap() <= MAX_DEPTH
    }
}


impl Circuit {
    /// A circuit of `num_qubits` empty tapes, run once.
    pub fn new(num_qubits: usize) -> (r: Circuit)
        ensures
            r.wf_native(),
            r.wf_partners(),
            r.num_qubits() == num_qubits,
            forall|q: int| 0 <= q < num_qubits ==> (#[trigger] r.tape(q)).len() == 0,
            r.parameters@.len() == 0,
            r.approx_factor == 1,
            r.model() == empty_model(num_qubits as nat),
    {
        let mut qubits: Vec<Vec<u8>> = Vec::new();
        let mut cx: Vec<Vec<Option<(usize, usize)>>> = Vec::new();
        let mut depths: Vec<Vec<Option<usize>>> = Vec::new();
        let mut i: usize = 0;
        while i < num_qubits
            invariant
                i <= num_qubits,
                qubits@.len() == i,
                cx@.len() == i,
                depths@.len() == i,
                forall|q: int|
                    0 <= q < i ==> qubits@[q]@.len() == 0 && cx@[q]@.len() == 0
                        && depths@[q]@.len() == 0,
            decreases num_qubits - i,
        {
            qubits.push(Vec::new());
            cx.push(Vec::new());
            depths.push(Vec::new());
            i += 1;
        }
        let r = Circuit { qubits, cx, parameters: Vec::new(), depths, approx_factor: 1 };
        proof {
            let e = empty_model(num_qubits as nat);
            assert forall|q: int| 0 <= q < num_qubits implies r.model().0[q] == e.0[q] && r.model().1[q]
                == e.1[q] && r.model().2[q] == e.2[q] by {
                assert(r.model().0[q] =~= e.0[q]);
                assert(r.model().1[q] =~= e.1[q]);
                assert(r.model().2[q] =~= e.2[q]);
            }
            assert(r.model().0 =~= e.0);
            assert(r.model().1 =~= e.1);
            assert(r.model().2 =~= e.2);
        }
        r
    }

    /// Appends single-qubit code `code` with repeat bound `depth` to tape `q`.
    pub fn push_single(&mut self, q: usize, code: u8, depth: Option<usize>)
        requires
            old(self).wf_partners(),
            q < old(self).num_qubits(),
            !is_two_qubit_op(code),
        ensures
            final(self).wf_partners(),
            final(self).num_qubits() == old(self).num_qubits(),
            final(self).tape(q as int) == old(self).tape(q as int).push(code),
            final(self).depths@[q as int]@ == old(self).depths@[q as int]@.push(depth),
            forall|r: int|
                0 <= r < old(self).num_qubits() && r != q ==> #[trigger] final(self).tape(r)
                    == old(self).tape(r),
            final(self).parameters == old(self).parameters,
            final(self).approx_factor == old(self).approx_factor,
            old(self).wf_native() && is_native_op(code) && (code != ROT ==> depth.is_none())
                ==> final(self).wf_native(),
            final(self).model() == model_push_single(old(self).model(), q as int, code, depth),
    {
        self.qubits[q].push(code);
        self.cx[q].push(None);
        self.depths[q].push(depth);
        proof {
            let o = old(self);
            assert forall|r: int| 0 <= r < self.num_qubits() implies (#[trigger] self.cx@[r])@.len()
                == self.tape(r).len() && self.depths@[r]@.len() == self.tape(r).len() by {
                assert(o.cx@[r]@.len() == o.tape(r).len());
            }
            assert forall|r: int, i: int|
                0 <= r < self.num_qubits() && 0 <= i < self.tape(r).len() implies #[trigger] self.partner_ok(
                r,
                i,
            ) by {
                if r != q || i < o.tape(q as int).len() {
                    assert(o.partner_ok(r, i));
                    assert(o.cx@[r]@.len() == o.tape(r).len());
                }
            }
            let m = model_push_single(o.model(), q as int, code, depth);
            assert(self.model().0 =~= m.0);
            assert(self.model().1 =~= m.1);
            assert(self.model().2 =~= m.2);
            if o.wf_native() && is_native_op(code) && (code != ROT ==> depth.is_none()) {
                assert forall|r: int, i: int|
                    0 <= r < self.num_qubits() && 0 <= i < self.tape(r).len() implies #[trigger] self.native_entry_ok(
                    r,
                    i,
                ) by {
                    assert(self.partner_ok(r, i));
                    if r != q || i < o.tape(q as int).len() {
                        assert(o.native_entry_ok(r, i));
                        assert(o.cx@[r]@.len() == o.tape(r).len());
                    }
                }
            }
        }
    }

    /// Appends a two-qubit pair: `code_a` on tape `a` and `code_b` on tape
    /// `b`, each naming the other as its partner.
    pub fn push_pair(&mut self, a: usize, b: usize, code_a: u8, code_b: u8)
        requires
            old(self).wf_partners(),
            a < old(self).num_qubits(),
            b < old(self).num_qubits(),
            a != b,
            is_two_qubit_op(code_a),
            is_two_qubit_op(code_b),
        ensures
            final(self).wf_partners(),
            final(self).num_qubits() == old(self).num_qubits(),
            final(self).tape(a as int) == old(self).tape(a as int).push(code_a),
            final(self).tape(b as int) == old(self).tape(b as int).push(code_b),
            final(self).partner(a as int, old(self).tape(a as int).len() as int) == Some(
                (b, old(self).tape(b as int).len() as usize),
            ),
            final(self).partner(b as int, old(self).tape(b as int).len() as int) == Some(
                (a, old(self).tape(a as int).len() as usize),
            ),
            forall|r: int|
                0 <= r < old(self).num_qubits() && r != a && r != b ==> #[trigger] final(self).tape(r)
                    == old(self).tape(r),
            final(self).parameters == old(self).parameters,
            final(self).approx_factor == old(self).approx_factor,
            old(self).wf_native() && code_a == MS && code_b == MS ==> final(self).wf_native(),
            final(self).model() == model_push_pair(old(self).model(), a as int, b as int, code_a, code_b),
    {
        let ia = self.qubits[a].len();
        let ib = self.qubits[b].len();
        proof {
            assert(old(self).cx@[a as int]@.len() == old(self).tape(a as int).len());
            assert(old(self).cx@[b as int]@.len() == old(self).tape(b as int).len());
        }
        self.qubits[a].push(code_a);
        self.cx[a].push(Some((b, ib)));
        self.depths[a].push(None);
        self.qubits[b].push(code_b);
        self.cx[b].push(Some((a, ia)));
        self.depths[b].push(None);
        proof {
            let o = old(self);
            assert forall|r: int| 0 <= r < self.num_qubits() implies (#[trigger] self.cx@[r])@.len()
                == self.tape(r).len() && self.depths@[r]@.len() == self.tape(r).len() by {
                assert(o.cx@[r]@.len() == o.tape(r).len());
            }
            assert forall|r: int, i: int|
                0 <= r < self.num_qubits() && 0 <= i < self.tape(r).len() implies #[trigger] self.partner_ok(
                r,
                i,
            ) by {
                if (r != a || i < ia) && (r != b || i < ib) {
                    assert(o.partner_ok(r, i));
                    assert(o.cx@[r]@.len() == o.tape(r).len());
                    if o.partner(r, i).is_some() {
                        let (p, j) = o.partner(r, i).unwrap();
                        assert(o.cx@[p as int]@.len() == o.tape(p as int).len());
                    }
                }
            }
            let m = model_push_pair(o.model(), a as int, b as int, code_a, code_b);
            assert(self.model().0 =~= m.0);
            assert(self.model().1 =~= m.1);
            assert(self.model().2 =~= m.2);
            if o.wf_native() && code_a == MS && code_b == MS {
                assert forall|r: int, i: int|
                    0 <= r < self.num_qubits() && 0 <= i < self.tape(r).len() implies #[trigger] self.native_entry_ok(
                    r,
                    i,
                ) by {
                    assert(self.partner_ok(r, i));
                    if (r != a || i < ia) && (r != b || i < ib) {
                        assert(o.native_entry_ok(r, i));
                        assert(o.cx@[r]@.len() == o.tape(r).len());
                        if o.partner(r, i).is_some() {
                            let (p, j) = o.partner(r, i).unwrap();
                            assert(o.cx@[p as int]@.len() == o.tape(p as int).len());
                        }
                    }
                }
            }
        }
    }
}


/// The codes of `s` in order, rotations left out unless `keep_rot`.
pub open spec fn gate_seq(s: Seq<u8>, keep_rot: bool) -> Seq<u8>
    decreases s.len(),
{
    if s.len() == 0 {
        Seq::empty()
    } else if s.last() == ROT && !keep_rot {
        gate_seq(s.drop_last(), keep_rot)
    } else {
        gate_seq(s.drop_last(), keep_rot).push(s.last())
    }
}

/// Extending a prefix of a tape by one instance.
pub proof fn lemma_gate_seq_step(s: Seq<u8>, i: int, keep_rot: bool)
    requires
        0 <= i < s.len(),
    ensures
        gate_seq(s.subrange(0, i + 1), keep_rot) == if s[i] == ROT && !keep_rot {
            gate_seq(s.subrange(0, i), keep_rot)
        } else {
            gate_seq(s.subrange(0, i), keep_rot).push(s[i])
        },
{
    assert(s.subrange(0, i + 1).drop_last() =~= s.subrange(0, i));
}


/// `n` empty tapes with empty side tables.
pub open spec fn empty_model(n: nat) -> (
    Seq<Seq<u8>>,
    Seq<Seq<Option<(usize, usize)>>>,
    Seq<Seq<Option<usize>>>,
) {
    (
        Seq::new(n, |i: int| Seq::<u8>::empty()),
        Seq::new(n, |i: int| Seq::<Option<(usize, usize)>>::empty()),
        Seq::new(n, |i: int| Seq::<Option<usize>>::empty()),
    )
}

/// Appends code `code` with no partner and repeat bound `depth` to tape `q`.
pub open spec fn model_push_single(
    m: (Seq<Seq<u8>>, Seq<Seq<Option<(usize, usize)>>>, Seq<Seq<Option<usize>>>),
    q: int,
    code: u8,
    depth: Option<usize>,
) -> (Seq<Seq<u8>>, Seq<Seq<Option<(usize, usize)>>>, Seq<Seq<Option<usize>>>) {
    (
        m.0.update(q, m.0[q].push(code)),
        m.1.update(q, m.1[q].push(None)),
        m.2.update(q, m.2[q].push(depth)),
    )
}

/// Appends a pair: `code_a` on tape `a` and `code_b` on tape `b`, each
/// naming the other's new position.
pub open spec fn model_push_pair(
    m: (Seq<Seq<u8>>, Seq<Seq<Option<(usize, usize)>>>, Seq<Seq<Option<usize>>>),
    a: int,
    b: int,
    code_a: u8,
    code_b: u8,
) -> (Seq<Seq<u8>>, Seq<Seq<Option<(usize, usize)>>>, Seq<Seq<Option<usize>>>) {
    let la = m.0[a].len() as usize;
    let lb = m.0[b].len() as usize;
    (
        m.0.update(a, m.0[a].push(code_a)).update(b, m.0[b].push(code_b)),
        m.1.update(a, m.1[a].push(Some((b as usize, lb)))).update(
            b,
            m.1[b].push(Some((a as usize, la))),
        ),
        m.2.update(a, m.2[a].push(None)).update(b, m.2[b].push(None)),
    )
}


impl Circuit {
    /// Tape `q`'s side tables have its length.
    pub open spec fn shape_at(&self, q: int) -> bool {
        &&& self.cx@[q]@.len() == self.tape(q).len()
        &&& self.depths@[q]@.len() == self.tape(q).len()
    }

    /// Whether the side tables run parallel to the tapes.
    pub fn has_shape(&self) -> (r: bool)
        ensures
            r == self.shape_ok(),
    {
        let n = self.qubits.len();
        if self.cx.len() != n || self.depths.len() != n {
            return false;
        }
        let mut q: usize = 0;
        while q < n
            invariant
                q <= n == self.num_qubits(),
                self.cx@.len() == n,
                self.depths@.len() == n,
                forall|k: int| 0 <= k < q ==> #[trigger] self.shape_at(k),
            decreases n - q,
        {
            let len = self.qubits[q].len();
            if self.cx[q].len() != len || self.depths[q].len() != len {
                proof {
                    assert(!self.shape_at(q as int));
                }
                return false;
            }
            proof {
                assert(self.shape_at(q as int));
            }
            q += 1;
        }
        proof {
            assert forall|k: int| 0 <= k < n implies (#[trigger] self.cx@[k])@.len() == self.tape(
                k,
            ).len() && self.depths@[k]@.len() == self.tape(k).len() by {
                assert(self.shape_at(k));
            }
        }
        true
    }

    /// Whether instance `(q, i)` of a well-shaped circuit is a valid native
    /// instance.
    fn native_entry_holds(&self, q: usize, i: usize) -> (r: bool)
        requires
            self.shape_ok(),
            q < self.num_qubits(),
            i < self.tape(q as int).len(),
        ensures
            r == self.native_entry_ok(q as int, i as int),
    {
        proof {
            assert(self.cx@[q as int]@.len() == self.tape(q as int).len());
        }
        let n = self.qubits.len();
        let code = self.qubits[q][i];
        if !(code == GPI || code == GPI2 || code == ROT || code == MS) {
            return false;
        }
        if code != ROT && self.depths[q][i].is_some() {
            return false;
        }
        match self.cx[q][i] {
            None => code != MS,
            Some((p, j)) => {
                if code != MS || p >= n || p == q {
                    return false;
                }
                proof {
                    assert(self.cx@[p as int]@.len() == self.tape(p as int).len());
                }
                if j >= self.qubits[p].len() {
                    return false;
                }
                if self.qubits[p][j] != MS {
                    return false;
                }
                match self.cx[p][j] {
                    Some((q2, i2)) => q2 == q && i2 == i,
                    None => false,
                }
            },
        }
    }

    /// Whether the circuit is a well-formed native circuit, as the schedulers
    /// require.
    pub fn is_native_wf(&self) -> (r: bool)
        ensures
            r == self.wf_native(),
    {
        if !self.has_shape() {
            return false;
        }
        let n = self.qubits.len();
        let mut q: usize = 0;
        while q < n
            invariant
                q <= n == self.num_qubits(),
                self.shape_ok(),
                forall|k: int, i: int|
                    0 <= k < q && 0 <= i < self.tape(k).len() ==> #[trigger] self.native_entry_ok(
                        k,
                        i,
                    ),
            decreases n - q,
        {
            let len = self.qubits[q].len();
            let mut i: usize = 0;
            while i < len
                invariant
                    q < n == self.num_qubits(),
                    len == self.tape(q as int).len(),
                    i <= len,
                    self.shape_ok(),
                    forall|k: int, j: int|
                        0 <= k < q && 0 <= j < self.tape(k).len() ==> #[trigger] self.native_entry_ok(
                            k,
                            j,
                        ),
                    forall|j: int| 0 <= j < i ==> #[trigger] self.native_entry_ok(q as int, j),
                decreases len - i,
            {
                if !self.native_entry_holds(q, i) {
                    return false;
                }
                i += 1;
            }
            q += 1;
        }
        proof {
            assert forall|k: int, i: int|
                0 <= k < self.num_qubits() && 0 <= i < self.tape(k).len() implies #[trigger] self.partner_ok(
                k,
                i,
            ) by {
                assert(self.native_entry_ok(k, i));
            }
        }
        true
    }
}

} // verus!
