//! The dependency frontier: which instances are ready, and the per-qubit
//! cursors into the tapes.
use vstd::prelude::*;
use std::collections::VecDeque;
use crate::circuit::{Circuit, MS, seq_sum, lemma_seq_sum_update, lemma_seq_sum_le};

verus! {

/// An entry names an existing instance.
pub open spec fn entry_in_range(c: &Circuit, e: (usize, usize)) -> bool {
    &&& e.0 < c.num_qubits()
    &&& e.1 < c.tape(e.0 as int).len()
}

pub open spec fn entries_in_range(c: &Circuit, f: Seq<(usize, usize)>) -> bool {
    forall|k: int| 0 <= k < f.len() ==> entry_in_range(c, #[trigger] f[k])
}

/// One cursor per qubit, each within its tape.
pub open spec fn cursors_ok(c: &Circuit, cur: Seq<usize>) -> bool {
    &&& cur.len() == c.num_qubits()
    &&& forall|q: int| 0 <= q < cur.len() ==> #[trigger] cur[q] <= c.tape(q).len()
}

/// Number of instances executed so far.
pub open spec fn done(cur: Seq<usize>) -> int {
    seq_sum(cur.map_values(|x: usize| x as int))
}

/// Whether every qubit has run its whole tape.
pub open spec fn finished(c: &Circuit, cur: Seq<usize>) -> bool {
    forall|q: int| 0 <= q < cur.len() ==> #[trigger] cur[q] == c.tape(q).len()
}

pub proof fn lemma_done_bounded(c: &Circuit, cur: Seq<usize>)
    requires
        cursors_ok(c, cur),
    ensures
        0 <= done(cur) <= c.total_ops(),
{
    let a = cur.map_values(|x: usize| x as int);
    let b = c.qubits@.map_values(|t: Vec<u8>| t@.len() as int);
    let z = Seq::new(cur.len(), |i: int| 0int);
    assert forall|i: int| 0 <= i < a.len() implies a[i] <= b[i] by {
        assert(cur[i] <= c.tape(i).len());
    }
    lemma_seq_sum_le(a, b);
    lemma_seq_sum_le(z, a);
    lemma_sum_zero(z);
}

proof fn lemma_sum_zero(z: Seq<int>)
    requires
        forall|i: int| 0 <= i < z.len() ==> z[i] == 0,
    ensures
        seq_sum(z) == 0,
    decreases z.len(),
{
    if z.len() > 0 {
        lemma_sum_zero(z.drop_last());
    }
}

pub proof fn lemma_done_step(cur: Seq<usize>, q: int)
    requires
        0 <= q < cur.len(),
        cur[q] < usize::MAX,
    ensures
        done(cur.update(q, (cur[q] + 1) as usize)) == done(cur) + 1,
{
    let f = |x: usize| x as int;
    let v = (cur[q] + 1) as usize;
    assert(cur.update(q, v).map_values(f) =~= cur.map_values(f).update(q, v as int));
    lemma_seq_sum_update(cur.map_values(f), q, v as int);
}

/// Cursors at the start of every tape.
pub fn start_cursors(c: &Circuit) -> (r: Vec<usize>)
    requires
        c.wf_native(),
    ensures
        cursors_ok(c, r@),
        forall|q: int| 0 <= q < r@.len() ==> #[trigger] r@[q] == 0,
        r@ == Seq::new(c.num_qubits() as nat, |i: int| 0usize),
        pairs_in_step(c, r@),
{
    let n = c.qubits.len();
    let mut r: Vec<usize> = Vec::new();
    let mut i: usize = 0;
    while i < n
        invariant
            i <= n == c.num_qubits(),
            r@.len() == i,
            forall|q: int| 0 <= q < i ==> #[trigger] r@[q] == 0,
        decreases n - i,
    {
        r.push(0);
        i += 1;
    }
    proof {
        assert(r@ =~= Seq::new(c.num_qubits() as nat, |i: int| 0usize));
        assert forall|q: int, i: int|
            0 <= q < c.num_qubits() && 0 <= i < c.tape(q).len() && #[trigger] c.partner(
                q,
                i,
            ).is_some() implies (i < r@[q]) == (c.partner(q, i).unwrap().1 < r@[c.partner(
            q,
            i,
        ).unwrap().0 as int]) by {
            assert(c.cx@[q]@.len() == c.tape(q).len());
            assert(c.native_entry_ok(q, i));
        }
    }
    r
}

/// The first instance of each qubit that is ready: every first instance but a
/// two-qubit one whose partner is not also first; a pair of first instances
/// is entered once, by its lower qubit.
pub fn seed_frontier(c: &Circuit) -> (r: VecDeque<(usize, usize)>)
    requires
        c.wf_native(),
    ensures
        entries_in_range(c, r@),
        forall|k: int| 0 <= k < r@.len() ==> (#[trigger] r@[k]).1 == 0,
        covered(c, Seq::new(c.num_qubits() as nat, |i: int| 0usize), r@),
        forall|k: int|
            0 <= k < r@.len() ==> ready_at(
                c,
                Seq::new(c.num_qubits() as nat, |i: int| 0usize),
                (#[trigger] r@[k]).0 as int,
                0,
            ),
        forall|k: int|
            0 <= k < r@.len() && c.tape((#[trigger] r@[k]).0 as int)[0] == MS ==> c.partner(
                r@[k].0 as int,
                0,
            ).unwrap().0 > r@[k].0,
        forall|k: int, m: int| 0 <= k < m < r@.len() ==> (#[trigger] r@[k]).0 < (#[trigger] r@[m]).0,
{
    let ghost z = Seq::new(c.num_qubits() as nat, |i: int| 0usize);
    let n = c.qubits.len();
    let mut frontier: VecDeque<(usize, usize)> = VecDeque::new();
    let mut i: usize = 0;
    while i < n
        invariant
            i <= n == c.num_qubits(),
            c.wf_native(),
            entries_in_range(c, frontier@),
            forall|k: int| 0 <= k < frontier@.len() ==> (#[trigger] frontier@[k]).1 == 0,
            forall|k: int| 0 <= k < frontier@.len() ==> (#[trigger] frontier@[k]).0 < i,
            z == Seq::new(c.num_qubits() as nat, |i: int| 0usize),
            forall|k: int|
                0 <= k < frontier@.len() ==> ready_at(c, z, (#[trigger] frontier@[k]).0 as int, 0),
            forall|k: int|
                0 <= k < frontier@.len() && c.tape((#[trigger] frontier@[k]).0 as int)[0] == MS
                    ==> c.partner(frontier@[k].0 as int, 0).unwrap().0 > frontier@[k].0,
            forall|k: int, m: int|
                0 <= k < m < frontier@.len() ==> (#[trigger] frontier@[k]).0 < (#[trigger] frontier@[m]).0,
            forall|q: int|
                0 <= q < i && #[trigger] ready_at(c, z, q, z[q] as int) ==> frontier@.contains(
                    (q as usize, z[q]),
                ) || (c.tape(q)[z[q] as int] == MS && frontier@.contains(
                    c.partner(q, z[q] as int).unwrap(),
                )),
        decreases n - i,
    {
        let ghost f0 = frontier@;
        if c.qubits[i].len() > 0 {
            proof {
                assert(c.cx@[i as int]@.len() == c.tape(i as int).len());
                assert(c.native_entry_ok(i as int, 0));
            }
            if c.qubits[i][0] == MS {
                let partner = c.cx[i][0].unwrap();
                if partner.0 > i && partner.1 == 0 {
                    frontier.push_back((i, 0));
                }
            } else {
                frontier.push_back((i, 0));
            }
        }
        proof {
            assert(forall|k: int| 0 <= k < f0.len() ==> #[trigger] frontier@[k] == f0[k]);
            assert forall|q: int|
                0 <= q < i + 1 && #[trigger] ready_at(c, z, q, z[q] as int) implies frontier@.contains(
                (q as usize, z[q]),
            ) || (c.tape(q)[z[q] as int] == MS && frontier@.contains(
                c.partner(q, z[q] as int).unwrap(),
            )) by {
                if q < i {
                    if f0.contains((q as usize, z[q])) {
                        let k = choose|k: int| 0 <= k < f0.len() && f0[k] == (q as usize, z[q]);
                        assert(frontier@[k] == f0[k]);
                    } else {
                        let x = c.partner(q, z[q] as int).unwrap();
                        let k = choose|k: int| 0 <= k < f0.len() && f0[k] == x;
                        assert(frontier@[k] == f0[k]);
                    }
                } else {
                    assert(c.native_entry_ok(q, 0));
                    if c.tape(q)[0] == MS {
                        let (p, j) = c.partner(q, 0).unwrap();
                        if (p as int) < q {
                            assert(c.cx@[p as int]@.len() == c.tape(p as int).len());
                            assert(c.native_entry_ok(p as int, 0));
                            assert(ready_at(c, z, p as int, z[p as int] as int));
                            if f0.contains((q as usize, 0usize)) {
                                let k = choose|k: int| 0 <= k < f0.len() && f0[k] == (q as usize, 0usize);
                                assert(f0[k].0 < i);
                            }
                            let k = choose|k: int| 0 <= k < f0.len() && f0[k] == (p, 0usize);
                            assert(frontier@[k] == f0[k]);
                        } else {
                            assert(frontier@[frontier@.len() - 1] == (q as usize, 0usize));
                        }
                    } else {
                        assert(frontier@[frontier@.len() - 1] == (q as usize, 0usize));
                    }
                }
            }
        }
        i += 1;
    }
    frontier
}

/// Whether the partner of two-qubit instance `index` has reached it.
pub fn is_executable(c: &Circuit, index: (usize, usize), current_nodes: &Vec<usize>) -> (r: bool)
    requires
        c.wf_native(),
        entry_in_range(c, index),
        c.tape(index.0 as int)[index.1 as int] == MS,
        current_nodes@.len() == c.num_qubits(),
    ensures
        r == (current_nodes@[c.partner(index.0 as int, index.1 as int).unwrap().0 as int]
            == c.partner(index.0 as int, index.1 as int).unwrap().1),
{
    proof {
        assert(c.cx@[index.0 as int]@.len() == c.tape(index.0 as int).len());
        assert(c.native_entry_ok(index.0 as int, index.1 as int));
    }
    let partner = c.cx[index.0][index.1].unwrap();
    current_nodes[partner.0] == partner.1
}

/// Moves qubit `q` past its current instance and enters its next instance
/// into the frontier when that one is ready.
pub fn advance(
    c: &Circuit,
    q: usize,
    current_nodes: &mut Vec<usize>,
    frontier: &mut VecDeque<(usize, usize)>,
)
    requires
        c.wf_native(),
        cursors_ok(c, old(current_nodes)@),
        q < c.num_qubits(),
        old(current_nodes)@[q as int] < c.tape(q as int).len(),
        entries_in_range(c, old(frontier)@),
    ensures
        final(current_nodes)@ == old(current_nodes)@.update(
            q as int,
            (old(current_nodes)@[q as int] + 1) as usize,
        ),
        final(current_nodes)@[q as int] == old(current_nodes)@[q as int] + 1,
        cursors_ok(c, final(current_nodes)@),
        done(final(current_nodes)@) == done(old(current_nodes)@) + 1,
        entries_in_range(c, final(frontier)@),
        final(frontier)@.len() <= old(frontier)@.len() + 1,
        final(frontier)@.len() >= old(frontier)@.len(),
        forall|k: int| 0 <= k < old(frontier)@.len() ==> #[trigger] final(frontier)@[k] == old(frontier)@[k],
        final(frontier)@ == if ready_at(
            c,
            final(current_nodes)@,
            q as int,
            final(current_nodes)@[q as int] as int,
        ) {
            old(frontier)@.push((q, final(current_nodes)@[q as int]))
        } else {
            old(frontier)@
        },
{
    let len = c.qubits[q].len();
    proof {
        lemma_done_step(current_nodes@, q as int);
    }
    current_nodes[q] += 1;
    let node_index = current_nodes[q];
    if node_index >= len {
        return;
    }
    if c.qubits[q][node_index] == MS {
        if is_executable(c, (q, node_index), current_nodes) {
            frontier.push_back((q, node_index));
        }
    } else {
        frontier.push_back((q, node_index));
    }
}


/// Instance `(q, i)` can run: its qubit's cursor is on it and, for a
/// two-qubit instance, its partner's cursor is on the partner.
pub open spec fn ready_at(c: &Circuit, cur: Seq<usize>, q: int, i: int) -> bool {
    &&& 0 <= q < c.num_qubits()
    &&& 0 <= i < c.tape(q).len()
    &&& cur[q] == i
    &&& c.tape(q)[i] == MS ==> cur[c.partner(q, i).unwrap().0 as int] == c.partner(q, i).unwrap().1
}

/// Every qubit whose next instance can run has it, or the partner's half
/// of its pair, in `f`.
pub open spec fn covered(c: &Circuit, cur: Seq<usize>, f: Seq<(usize, usize)>) -> bool {
    forall|q: int|
        #[trigger] ready_at(c, cur, q, cur[q] as int) ==> f.contains((q as usize, cur[q]))
            || (c.tape(q)[cur[q] as int] == MS && f.contains(c.partner(q, cur[q] as int).unwrap()))
}

/// The two halves of every pair are both past their cursors or both not.
pub open spec fn pairs_in_step(c: &Circuit, cur: Seq<usize>) -> bool {
    forall|q: int, i: int|
        0 <= q < c.num_qubits() && 0 <= i < c.tape(q).len() && #[trigger] c.partner(q, i).is_some()
            ==> (i < cur[q]) == (c.partner(q, i).unwrap().1 < cur[c.partner(q, i).unwrap().0 as int])
}

/// `rank` orders each tape and gives both halves of a pair the same rank.
pub open spec fn ranked(c: &Circuit, rank: spec_fn(int, int) -> nat) -> bool {
    &&& forall|q: int, i: int, k: int|
        0 <= q < c.num_qubits() && 0 <= i < k < c.tape(q).len() ==> #[trigger] rank(q, i)
            < #[trigger] rank(q, k)
    &&& forall|q: int, i: int|
        0 <= q < c.num_qubits() && 0 <= i < c.tape(q).len() && #[trigger] c.partner(q, i).is_some()
            ==> rank(c.partner(q, i).unwrap().0 as int, c.partner(q, i).unwrap().1 as int) == rank(
            q,
            i,
        )
}

/// The circuit's instances have one global order: no two-qubit gates
/// cross, as in any circuit read line by line.
pub open spec fn ordered(c: &Circuit) -> bool {
    exists|rank: spec_fn(int, int) -> nat| ranked(c, rank)
}

proof fn lemma_finished_at(c: &Circuit, cur: Seq<usize>, rank: spec_fn(int, int) -> nat, q: int)
    requires
        c.wf_native(),
        cursors_ok(c, cur),
        covered(c, cur, Seq::empty()),
        pairs_in_step(c, cur),
        ranked(c, rank),
        0 <= q < c.num_qubits(),
    ensures
        cur[q] == c.tape(q).len(),
    decreases rank(q, cur[q] as int),
{
    if cur[q] < c.tape(q).len() {
        let i = cur[q] as int;
        assert(c.cx@[q]@.len() == c.tape(q).len());
        assert(c.native_entry_ok(q, i));
        if c.tape(q)[i] != MS || cur[c.partner(q, i).unwrap().0 as int] == c.partner(q, i).unwrap().1 {
            assert(ready_at(c, cur, q, cur[q] as int));
        } else {
            let (p, j) = c.partner(q, i).unwrap();
            assert(c.partner(q, i).is_some());
            assert(cur[p as int] <= c.tape(p as int).len());
            assert(rank(p as int, cur[p as int] as int) < rank(p as int, j as int));
            lemma_finished_at(c, cur, rank, p as int);
        }
    }
}

/// With nothing left in the frontier, an ordered circuit has run to its end.
pub proof fn lemma_stuck_finished(c: &Circuit, cur: Seq<usize>)
    requires
        c.wf_native(),
        ordered(c),
        cursors_ok(c, cur),
        covered(c, cur, Seq::empty()),
        pairs_in_step(c, cur),
    ensures
        finished(c, cur),
{
    let rank = choose|rank: spec_fn(int, int) -> nat| ranked(c, rank);
    assert forall|q: int| 0 <= q < cur.len() implies #[trigger] cur[q] == c.tape(q).len() by {
        lemma_finished_at(c, cur, rank, q);
    }
}

/// Coverage only needs what `f` contains.
pub proof fn lemma_covered_within(c: &Circuit, cur: Seq<usize>, f: Seq<(usize, usize)>, g: Seq<(usize, usize)>)
    requires
        covered(c, cur, f),
        forall|x: (usize, usize)| f.contains(x) ==> #[trigger] g.contains(x),
    ensures
        covered(c, cur, g),
{
    assert forall|q: int| #[trigger] ready_at(c, cur, q, cur[q] as int) implies g.contains(
        (q as usize, cur[q]),
    ) || (c.tape(q)[cur[q] as int] == MS && g.contains(c.partner(q, cur[q] as int).unwrap())) by {
        if f.contains((q as usize, cur[q])) {
            assert(g.contains((q as usize, cur[q])));
        } else {
            assert(g.contains(c.partner(q, cur[q] as int).unwrap()));
        }
    }
}


/// Dropping the first entry keeps coverage when that entry cannot run.
pub proof fn lemma_covered_drop(c: &Circuit, cur: Seq<usize>, f: Seq<(usize, usize)>)
    requires
        c.wf_native(),
        c.num_qubits() <= usize::MAX,
        cursors_ok(c, cur),
        f.len() > 0,
        covered(c, cur, f),
        !ready_at(c, cur, f[0].0 as int, f[0].1 as int),
    ensures
        covered(c, cur, f.subrange(1, f.len() as int)),
{
    let g = f.subrange(1, f.len() as int);
    assert forall|q: int| #[trigger] ready_at(c, cur, q, cur[q] as int) implies g.contains(
        (q as usize, cur[q]),
    ) || (c.tape(q)[cur[q] as int] == MS && g.contains(c.partner(q, cur[q] as int).unwrap())) by {
        let i = cur[q] as int;
        assert(c.cx@[q]@.len() == c.tape(q).len());
        assert(c.native_entry_ok(q, i));
        if f.contains((q as usize, cur[q])) {
            let k = choose|k: int| 0 <= k < f.len() && f[k] == (q as usize, cur[q]);
            if k == 0 {
                assert(ready_at(c, cur, f[0].0 as int, f[0].1 as int));
            }
            assert(g[k - 1] == f[k]);
        } else {
            let x = c.partner(q, i).unwrap();
            let k = choose|k: int| 0 <= k < f.len() && f[k] == x;
            if k == 0 {
                assert(c.native_entry_ok(x.0 as int, x.1 as int));
                assert(ready_at(c, cur, x.0 as int, x.1 as int));
            }
            assert(g[k - 1] == f[k]);
        }
    }
}

/// Running the single-qubit instance at the head of `f` and queueing the
/// qubit's next instance when it can run keeps coverage.
pub proof fn lemma_covered_single(
    c: &Circuit,
    cur: Seq<usize>,
    f: Seq<(usize, usize)>,
    g: Seq<(usize, usize)>,
    q0: int,
)
    requires
        c.wf_native(),
        c.num_qubits() <= usize::MAX,
        cursors_ok(c, cur),
        covered(c, cur, f),
        f.len() > 0,
        0 <= q0 < c.num_qubits(),
        c.tape(q0).len() <= usize::MAX,
        f[0] == (q0 as usize, cur[q0]),
        cur[q0] < c.tape(q0).len(),
        c.tape(q0)[cur[q0] as int] != MS,
        forall|x: (usize, usize)| f.subrange(1, f.len() as int).contains(x) ==> #[trigger] g.contains(x),
        ready_at(c, cur.update(q0, (cur[q0] + 1) as usize), q0, cur[q0] + 1) ==> g.contains(
            (q0 as usize, (cur[q0] + 1) as usize),
        ),
    ensures
        covered(c, cur.update(q0, (cur[q0] + 1) as usize), g),
{
    let cur1 = cur.update(q0, (cur[q0] + 1) as usize);
    let h = f.subrange(1, f.len() as int);
    assert forall|q: int| #[trigger] ready_at(c, cur1, q, cur1[q] as int) implies g.contains(
        (q as usize, cur1[q]),
    ) || (c.tape(q)[cur1[q] as int] == MS && g.contains(c.partner(q, cur1[q] as int).unwrap())) by {
        if q != q0 {
            let i = cur[q] as int;
            assert(c.cx@[q]@.len() == c.tape(q).len());
            assert(c.native_entry_ok(q, i));
            if c.tape(q)[i] == MS && c.partner(q, i).unwrap().0 == q0 {
                let j = c.partner(q, i).unwrap().1 as int;
                assert(c.native_entry_ok(q0, j));
                assert(ready_at(c, cur1, q0, cur1[q0] as int));
            } else {
                assert(ready_at(c, cur, q, cur[q] as int));
                if f.contains((q as usize, cur[q])) {
                    let k = choose|k: int| 0 <= k < f.len() && f[k] == (q as usize, cur[q]);
                    assert(h[k - 1] == f[k]);
                    assert(h.contains((q as usize, cur[q])));
                } else {
                    let x = c.partner(q, i).unwrap();
                    let k = choose|k: int| 0 <= k < f.len() && f[k] == x;
                    assert(h[k - 1] == f[k]);
                    assert(h.contains(x));
                }
            }
        }
    }
}

/// Running the pair at the head of `f` and queueing each qubit's next
/// instance when it can run keeps coverage.
pub proof fn lemma_covered_pair(
    c: &Circuit,
    cur: Seq<usize>,
    f: Seq<(usize, usize)>,
    g: Seq<(usize, usize)>,
    q0: int,
    p0: int,
)
    requires
        c.wf_native(),
        c.num_qubits() <= usize::MAX,
        cursors_ok(c, cur),
        covered(c, cur, f),
        f.len() > 0,
        0 <= q0 < c.num_qubits(),
        c.tape(q0).len() <= usize::MAX,
        f[0] == (q0 as usize, cur[q0]),
        cur[q0] < c.tape(q0).len(),
        c.tape(q0)[cur[q0] as int] == MS,
        c.partner(q0, cur[q0] as int) == Some((p0 as usize, cur[p0])),
        0 <= p0 < c.num_qubits(),
        c.tape(p0).len() <= usize::MAX,
        forall|x: (usize, usize)| f.subrange(1, f.len() as int).contains(x) ==> #[trigger] g.contains(x),
        ready_at(c, cur.update(q0, (cur[q0] + 1) as usize), q0, cur[q0] + 1) ==> g.contains(
            (q0 as usize, (cur[q0] + 1) as usize),
        ),
        ready_at(
            c,
            cur.update(q0, (cur[q0] + 1) as usize).update(p0, (cur[p0] + 1) as usize),
            p0,
            cur[p0] + 1,
        ) ==> g.contains((p0 as usize, (cur[p0] + 1) as usize)),
    ensures
        covered(c, cur.update(q0, (cur[q0] + 1) as usize).update(p0, (cur[p0] + 1) as usize), g),
{
    assert(c.cx@[q0]@.len() == c.tape(q0).len());
    assert(c.native_entry_ok(q0, cur[q0] as int));
    let cur1 = cur.update(q0, (cur[q0] + 1) as usize);
    let cur2 = cur1.update(p0, (cur[p0] + 1) as usize);
    let h = f.subrange(1, f.len() as int);
    assert forall|q: int| #[trigger] ready_at(c, cur2, q, cur2[q] as int) implies g.contains(
        (q as usize, cur2[q]),
    ) || (c.tape(q)[cur2[q] as int] == MS && g.contains(c.partner(q, cur2[q] as int).unwrap())) by {
        let i = cur2[q] as int;
        assert(c.cx@[q]@.len() == c.tape(q).len());
        assert(c.native_entry_ok(q, i));
        if q == q0 {
            if c.tape(q)[i] == MS && c.partner(q, i).unwrap().0 == p0 {
                let k = c.partner(q, i).unwrap().1 as int;
                assert(c.native_entry_ok(p0, k));
                assert(ready_at(c, cur2, p0, cur2[p0] as int));
            } else {
                assert(ready_at(c, cur1, q0, cur1[q0] as int));
            }
        } else if q != p0 {
            if c.tape(q)[i] == MS && c.partner(q, i).unwrap().0 == q0 {
                let k = c.partner(q, i).unwrap().1 as int;
                assert(c.native_entry_ok(q0, k));
                assert(ready_at(c, cur1, q0, cur1[q0] as int));
            } else if c.tape(q)[i] == MS && c.partner(q, i).unwrap().0 == p0 {
                let k = c.partner(q, i).unwrap().1 as int;
                assert(c.native_entry_ok(p0, k));
                assert(ready_at(c, cur2, p0, cur2[p0] as int));
            } else {
                assert(ready_at(c, cur, q, cur[q] as int));
                if f.contains((q as usize, cur[q])) {
                    let k = choose|k: int| 0 <= k < f.len() && f[k] == (q as usize, cur[q]);
                    assert(h[k - 1] == f[k]);
                    assert(h.contains((q as usize, cur[q])));
                } else {
                    let x = c.partner(q, cur[q] as int).unwrap();
                    let k = choose|k: int| 0 <= k < f.len() && f[k] == x;
                    assert(h[k - 1] == f[k]);
                    assert(h.contains(x));
                }
            }
        }
    }
}

/// Passing a single-qubit instance keeps pairs in step.
pub proof fn lemma_pairs_single(c: &Circuit, cur: Seq<usize>, q0: int)
    requires
        c.wf_native(),
        c.num_qubits() <= usize::MAX,
        cursors_ok(c, cur),
        pairs_in_step(c, cur),
        0 <= q0 < c.num_qubits(),
        c.tape(q0).len() <= usize::MAX,
        cur[q0] < c.tape(q0).len(),
        c.tape(q0)[cur[q0] as int] != MS,
    ensures
        pairs_in_step(c, cur.update(q0, (cur[q0] + 1) as usize)),
{
    let cur1 = cur.update(q0, (cur[q0] + 1) as usize);
    assert(c.cx@[q0]@.len() == c.tape(q0).len());
    assert(c.native_entry_ok(q0, cur[q0] as int));
    assert forall|q: int, i: int|
        0 <= q < c.num_qubits() && 0 <= i < c.tape(q).len() && #[trigger] c.partner(q, i).is_some()
            implies (i < cur1[q]) == (c.partner(q, i).unwrap().1 < cur1[c.partner(
        q,
        i,
    ).unwrap().0 as int]) by {
        assert(c.cx@[q]@.len() == c.tape(q).len());
        assert(c.native_entry_ok(q, i));
        let (p, j) = c.partner(q, i).unwrap();
        assert(c.partner(p as int, j as int).is_some());
    }
}

/// Passing both halves of a pair keeps pairs in step.
pub proof fn lemma_pairs_pair(c: &Circuit, cur: Seq<usize>, q0: int, p0: int)
    requires
        c.wf_native(),
        c.num_qubits() <= usize::MAX,
        cursors_ok(c, cur),
        pairs_in_step(c, cur),
        0 <= q0 < c.num_qubits(),
        c.tape(q0).len() <= usize::MAX,
        cur[q0] < c.tape(q0).len(),
        c.partner(q0, cur[q0] as int) == Some((p0 as usize, cur[p0])),
        0 <= p0 < c.num_qubits(),
        c.tape(p0).len() <= usize::MAX,
    ensures
        pairs_in_step(c, cur.update(q0, (cur[q0] + 1) as usize).update(p0, (cur[p0] + 1) as usize)),
{
    let cur2 = cur.update(q0, (cur[q0] + 1) as usize).update(p0, (cur[p0] + 1) as usize);
    assert(c.cx@[q0]@.len() == c.tape(q0).len());
    assert(c.native_entry_ok(q0, cur[q0] as int));
    assert forall|q: int, i: int|
        0 <= q < c.num_qubits() && 0 <= i < c.tape(q).len() && #[trigger] c.partner(q, i).is_some()
            implies (i < cur2[q]) == (c.partner(q, i).unwrap().1 < cur2[c.partner(
        q,
        i,
    ).unwrap().0 as int]) by {
        assert(c.cx@[q]@.len() == c.tape(q).len());
        assert(c.native_entry_ok(q, i));
        let (p, j) = c.partner(q, i).unwrap();
        assert(c.partner(p as int, j as int).is_some());
    }
}


/// Taking the head off queue `a` (followed by `b`) and then only appending
/// keeps every entry but the head.
pub proof fn lemma_queue_keeps(
    a: Seq<(usize, usize)>,
    b: Seq<(usize, usize)>,
    a2: Seq<(usize, usize)>,
    b2: Seq<(usize, usize)>,
)
    requires
        a.len() > 0,
        a2.len() >= a.len() - 1,
        forall|k: int| 0 <= k < a.len() - 1 ==> #[trigger] a2[k] == a[k + 1],
        b2.len() >= b.len(),
        forall|k: int| 0 <= k < b.len() ==> #[trigger] b2[k] == b[k],
    ensures
        forall|x: (usize, usize)|
            (a + b).subrange(1, (a + b).len() as int).contains(x) ==> #[trigger] (a2 + b2).contains(x),
{
    let f = a + b;
    let g = a2 + b2;
    assert forall|x: (usize, usize)| f.subrange(1, f.len() as int).contains(x) implies #[trigger] g.contains(
        x,
    ) by {
        let k = choose|k: int| 0 <= k < f.len() - 1 && f.subrange(1, f.len() as int)[k] == x;
        if k + 1 < a.len() {
            assert(g[k] == a2[k]);
        } else {
            let m = k + 1 - a.len();
            assert(g[a2.len() + m] == b2[m]);
        }
    }
}

/// Moving the head of queue `a` to the end of queue `b` keeps coverage.
pub proof fn lemma_covered_requeue(
    c: &Circuit,
    cur: Seq<usize>,
    a: Seq<(usize, usize)>,
    b: Seq<(usize, usize)>,
)
    requires
        a.len() > 0,
        covered(c, cur, a + b),
    ensures
        covered(c, cur, a.subrange(1, a.len() as int) + b.push(a[0])),
{
    let f = a + b;
    let g = a.subrange(1, a.len() as int) + b.push(a[0]);
    lemma_queue_keeps(a, b, a.subrange(1, a.len() as int), b.push(a[0]));
    assert forall|x: (usize, usize)| f.contains(x) implies #[trigger] g.contains(x) by {
        let k = choose|k: int| 0 <= k < f.len() && f[k] == x;
        if k == 0 {
            assert(g[g.len() - 1] == a[0]);
        } else {
            assert(f.subrange(1, f.len() as int)[k - 1] == x);
        }
    }
    lemma_covered_within(c, cur, f, g);
}

} // verus!
