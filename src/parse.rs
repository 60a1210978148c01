//! Reading circuits from their line-oriented text: a header line with the
//! qubit count and an optional repetition count, then one gate per line.
use vstd::prelude::*;
use vstd::string::StringSliceAdditionalSpecFns;
use crate::circuit::{
    Circuit, NodeType, GPI, GPI2, ROT, MS, CX_CONTROL, CX_TARGET, empty_model, model_push_single,
    model_push_pair,
};
use crate::frontier::{ranked, ordered};
use crate::text::{
    line_end, split_tokens, tokens_ok, parse_usize, number_value, token_is, copy_range,
    spec_tokens, spec_line_end, next_line, lemma_line_end_bounds,
};

verus! {

/// Why a circuit text was refused.
#[derive(Debug)]
pub enum ParseError {
    /// The text has no header line with a qubit count.
    MissingHeader,
    /// A gate keyword that the dialect does not know.
    UnknownGate(Vec<u8>),
    /// A field that should be a number and is not one.
    BadNumber(Vec<u8>),
    /// A gate line that lacks an operand; its keyword.
    MissingOperand(Vec<u8>),
    /// A qubit index at or beyond the qubit count.
    QubitOutOfRange(usize),
    /// A two-qubit gate on one qubit twice.
    SameQubit(usize),
}

/// Whether `t` is a contiguous piece of `text`.
pub open spec fn is_slice(t: Seq<u8>, text: Seq<u8>) -> bool {
    exists|a: int, b: int| 0 <= a <= b <= text.len() && t == #[trigger] text.subrange(a, b)
}

/// What each refusal says of the text: the token it names is a piece of the
/// text; an unknown keyword is not one of the dialect's, a bad number does
/// not read as one.
pub open spec fn error_ok(e: ParseError, keywords: Set<Seq<u8>>, text: Seq<u8>) -> bool {
    match e {
        ParseError::UnknownGate(t) => !keywords.contains(t@) && is_slice(t@, text),
        ParseError::BadNumber(t) => number_value(t@).is_none() && is_slice(t@, text),
        ParseError::MissingOperand(t) => is_slice(t@, text),
        _ => true,
    }
}

pub open spec fn native_keywords() -> Set<Seq<u8>> {
    set![
        seq![0x67u8, 0x70, 0x69],
        seq![0x67u8, 0x70, 0x69, 0x32],
        seq![0x72u8, 0x7a],
        seq![0x6du8, 0x73],
    ]
}

pub open spec fn generic_keywords() -> Set<Seq<u8>> {
    set![
        seq![0x78u8],
        seq![0x79u8],
        seq![0x7au8],
        seq![0x68u8],
        seq![0x73u8],
        seq![0x73u8, 0x64, 0x67],
        seq![0x72u8, 0x7a],
        seq![0x63u8, 0x78],
    ]
}

/// The bytes of token `t`.
pub open spec fn token_bytes(b: Seq<u8>, t: (usize, usize)) -> Seq<u8> {
    b.subrange(t.0 as int, t.1 as int)
}

/// Token `k` of a line read as a qubit index below `n`.
pub open spec fn spec_operand(b: Seq<u8>, toks: Seq<(usize, usize)>, k: int, n: int) -> Option<
    usize,
> {
    if 0 <= k < toks.len() {
        match number_value(token_bytes(b, toks[k])) {
            Some(v) => if v < n {
                Some(v)
            } else {
                None
            },
            None => None,
        }
    } else {
        None
    }
}

/// The header line: qubit count, repetition count (1 when absent), and
/// where lines of gates start.
pub open spec fn spec_header(b: Seq<u8>) -> Option<(usize, usize, int)> {
    if b.len() == 0 {
        None
    } else {
        let e = spec_line_end(b, 0);
        let toks = spec_tokens(b, 0, e);
        if toks.len() == 0 {
            None
        } else {
            match number_value(token_bytes(b, toks[0])) {
                None => None,
                Some(n) => {
                    let a = if toks.len() >= 2 {
                        number_value(token_bytes(b, toks[1]))
                    } else {
                        Some(1usize)
                    };
                    match a {
                        None => None,
                        Some(a) => Some((n, a, next_line(b, e))),
                    }
                },
            }
        }
    }
}

/// What one line of the native dialect asks for.
pub enum NativeLine {
    Blank,
    Single(u8, usize),
    Rot(usize, Option<usize>),
    Pair(usize, usize),
    Bad,
}

/// The meaning of a native line with tokens `toks` in a circuit of `n`
/// qubits: the target is read first, then the keyword decides.
pub open spec fn native_line(b: Seq<u8>, toks: Seq<(usize, usize)>, n: int) -> NativeLine {
    if toks.len() == 0 {
        NativeLine::Blank
    } else {
        let kw = token_bytes(b, toks[0]);
        match spec_operand(b, toks, 1, n) {
            None => NativeLine::Bad,
            Some(t) => if kw == seq![0x67u8, 0x70, 0x69] {
                NativeLine::Single(GPI, t)
            } else if kw == seq![0x67u8, 0x70, 0x69, 0x32] {
                NativeLine::Single(GPI2, t)
            } else if kw == seq![0x72u8, 0x7a] {
                if toks.len() >= 3 {
                    match number_value(token_bytes(b, toks[2])) {
                        Some(d) => NativeLine::Rot(t, Some(d)),
                        None => NativeLine::Bad,
                    }
                } else {
                    NativeLine::Rot(t, None)
                }
            } else if kw == seq![0x6du8, 0x73] {
                match spec_operand(b, toks, 2, n) {
                    Some(t2) => if t2 != t {
                        NativeLine::Pair(t, t2)
                    } else {
                        NativeLine::Bad
                    },
                    None => NativeLine::Bad,
                }
            } else {
                NativeLine::Bad
            },
        }
    }
}

/// The circuit after one native line.
pub open spec fn apply_native(
    m: (Seq<Seq<u8>>, Seq<Seq<Option<(usize, usize)>>>, Seq<Seq<Option<usize>>>),
    v: NativeLine,
) -> (Seq<Seq<u8>>, Seq<Seq<Option<(usize, usize)>>>, Seq<Seq<Option<usize>>>) {
    match v {
        NativeLine::Single(code, q) => model_push_single(m, q as int, code, None),
        NativeLine::Rot(q, d) => model_push_single(m, q as int, ROT, d),
        NativeLine::Pair(a, c) => model_push_pair(m, a as int, c as int, MS, MS),
        _ => m,
    }
}

/// The circuit after the native lines from `pos` on, starting from `m`;
/// `None` if one of them is malformed.
pub open spec fn native_lines(
    b: Seq<u8>,
    pos: int,
    n: int,
    m: (Seq<Seq<u8>>, Seq<Seq<Option<(usize, usize)>>>, Seq<Seq<Option<usize>>>),
) -> Option<(Seq<Seq<u8>>, Seq<Seq<Option<(usize, usize)>>>, Seq<Seq<Option<usize>>>)>
    decreases b.len() - pos,
    via native_lines_decreases
{
    if pos < 0 || pos >= b.len() {
        Some(m)
    } else {
        let e = spec_line_end(b, pos);
        let v = native_line(b, spec_tokens(b, pos, e), n);
        if v is Bad {
            None
        } else {
            native_lines(b, next_line(b, e), n, apply_native(m, v))
        }
    }
}

#[via_fn]
proof fn native_lines_decreases(
    b: Seq<u8>,
    pos: int,
    n: int,
    m: (Seq<Seq<u8>>, Seq<Seq<Option<(usize, usize)>>>, Seq<Seq<Option<usize>>>),
) {
    if 0 <= pos < b.len() {
        lemma_line_end_bounds(b, pos);
    }
}

/// Where lines of gates start, in a text with a well-formed header.
pub open spec fn full_start(b: Seq<u8>) -> int {
    spec_header(b).unwrap().2
}

/// The circuit that a native text describes, with its repetition count;
/// `None` if the text is malformed.
pub open spec fn native_text(b: Seq<u8>) -> Option<
    ((Seq<Seq<u8>>, Seq<Seq<Option<(usize, usize)>>>, Seq<Seq<Option<usize>>>), usize),
> {
    match spec_header(b) {
        None => None,
        Some((n, a, p)) => match native_lines(b, p, n as int, empty_model(n as nat)) {
            None => None,
            Some(m) => Some((m, a)),
        },
    }
}

/// What one line of the generic dialect asks for.
pub enum GenericLine {
    Blank,
    Single(u8, usize),
    Rot(usize, (usize, usize)),
    Pair(usize, usize),
    Bad,
}

/// The tape code of a generic keyword.
pub open spec fn generic_code(kw: Seq<u8>) -> Option<u8> {
    if kw == seq![0x78u8] {
        Some(0x78u8)
    } else if kw == seq![0x79u8] {
        Some(0x79u8)
    } else if kw == seq![0x7au8] {
        Some(0x7au8)
    } else if kw == seq![0x68u8] {
        Some(0x68u8)
    } else if kw == seq![0x73u8] {
        Some(0x73u8)
    } else if kw == seq![0x73u8, 0x64, 0x67] {
        Some(0x64u8)
    } else if kw == seq![0x72u8, 0x7a] {
        Some(ROT)
    } else if kw == seq![0x63u8, 0x78] {
        Some(CX_CONTROL)
    } else {
        None
    }
}

/// The meaning of a generic line with tokens `toks` in a circuit of `n`
/// qubits: the keyword is read first, then the operands; a rotation keeps
/// its angle token.
pub open spec fn generic_line(b: Seq<u8>, toks: Seq<(usize, usize)>, n: int) -> GenericLine {
    if toks.len() == 0 {
        GenericLine::Blank
    } else {
        match generic_code(token_bytes(b, toks[0])) {
            None => GenericLine::Bad,
            Some(c) => match spec_operand(b, toks, 1, n) {
                None => GenericLine::Bad,
                Some(t) => if c == CX_CONTROL {
                    match spec_operand(b, toks, 2, n) {
                        Some(t2) => if t2 != t {
                            GenericLine::Pair(t, t2)
                        } else {
                            GenericLine::Bad
                        },
                        None => GenericLine::Bad,
                    }
                } else if c == ROT {
                    if toks.len() >= 3 {
                        GenericLine::Rot(t, toks[2])
                    } else {
                        GenericLine::Bad
                    }
                } else {
                    GenericLine::Single(c, t)
                },
            },
        }
    }
}

/// The circuit and angles after one generic line.
pub open spec fn apply_generic(
    b: Seq<u8>,
    m: (Seq<Seq<u8>>, Seq<Seq<Option<(usize, usize)>>>, Seq<Seq<Option<usize>>>),
    angles: Seq<Seq<u8>>,
    v: GenericLine,
) -> ((Seq<Seq<u8>>, Seq<Seq<Option<(usize, usize)>>>, Seq<Seq<Option<usize>>>), Seq<Seq<u8>>) {
    match v {
        GenericLine::Single(code, q) => (model_push_single(m, q as int, code, None), angles),
        GenericLine::Rot(q, t) => (
            model_push_single(m, q as int, ROT, None),
            angles.push(token_bytes(b, t)),
        ),
        GenericLine::Pair(a, c) => (
            model_push_pair(m, a as int, c as int, CX_CONTROL, CX_TARGET),
            angles,
        ),
        _ => (m, angles),
    }
}

/// The circuit and angles after the generic lines from `pos` on; `None` if
/// one of them is malformed.
pub open spec fn generic_lines(
    b: Seq<u8>,
    pos: int,
    n: int,
    m: (Seq<Seq<u8>>, Seq<Seq<Option<(usize, usize)>>>, Seq<Seq<Option<usize>>>),
    angles: Seq<Seq<u8>>,
) -> Option<((Seq<Seq<u8>>, Seq<Seq<Option<(usize, usize)>>>, Seq<Seq<Option<usize>>>), Seq<Seq<u8>>)>
    decreases b.len() - pos,
    via generic_lines_decreases
{
    if pos < 0 || pos >= b.len() {
        Some((m, angles))
    } else {
        let e = spec_line_end(b, pos);
        let v = generic_line(b, spec_tokens(b, pos, e), n);
        if v is Bad {
            None
        } else {
            let (m2, a2) = apply_generic(b, m, angles, v);
            generic_lines(b, next_line(b, e), n, m2, a2)
        }
    }
}

#[via_fn]
proof fn generic_lines_decreases(
    b: Seq<u8>,
    pos: int,
    n: int,
    m: (Seq<Seq<u8>>, Seq<Seq<Option<(usize, usize)>>>, Seq<Seq<Option<usize>>>),
    angles: Seq<Seq<u8>>,
) {
    if 0 <= pos < b.len() {
        lemma_line_end_bounds(b, pos);
    }
}

/// The circuit, angles and repetition count that a generic text describes;
/// `None` if the text is malformed.
pub open spec fn generic_text(b: Seq<u8>) -> Option<
    ((Seq<Seq<u8>>, Seq<Seq<Option<(usize, usize)>>>, Seq<Seq<Option<usize>>>), Seq<Seq<u8>>, usize),
> {
    match spec_header(b) {
        None => None,
        Some((n, a, p)) => match generic_lines(b, p, n as int, empty_model(n as nat), Seq::empty()) {
            None => None,
            Some((m, angles)) => Some((m, angles, a)),
        },
    }
}

/// `rank` with instance `(q0, i0)` given rank `k`.
pub open spec fn rank_with(rank: spec_fn(int, int) -> nat, q0: int, i0: int, k: nat) -> spec_fn(
    int,
    int,
) -> nat {
    |q: int, i: int|
        if q == q0 && i == i0 {
            k
        } else {
            rank(q, i)
        }
}

/// Every instance of `c` ranks below `k`.
pub open spec fn ranks_below(c: &Circuit, rank: spec_fn(int, int) -> nat, k: nat) -> bool {
    forall|q: int, i: int|
        0 <= q < c.num_qubits() && 0 <= i < c.tape(q).len() ==> #[trigger] rank(q, i) < k
}

/// Appending one instance ranked above all others keeps the circuit ranked.
proof fn lemma_ranked_single(
    c0: &Circuit,
    c1: &Circuit,
    rank: spec_fn(int, int) -> nat,
    k: nat,
    t: int,
    code: u8,
    depth: Option<usize>,
)
    requires
        c0.wf_partners(),
        ranked(c0, rank),
        ranks_below(c0, rank, k),
        0 <= t < c0.num_qubits(),
        c1.num_qubits() == c0.num_qubits(),
        c1.wf_partners(),
        c1.model() == model_push_single(c0.model(), t, code, depth),
    ensures
        ranked(c1, rank_with(rank, t, c0.tape(t).len() as int, k)),
        ranks_below(c1, rank_with(rank, t, c0.tape(t).len() as int, k), k + 1),
{
    let r1 = rank_with(rank, t, c0.tape(t).len() as int, k);
    let m0 = c0.model();
    let m1 = c1.model();
    assert forall|q: int| 0 <= q < c1.num_qubits() implies #[trigger] c1.tape(q) == if q == t {
        c0.tape(t).push(code)
    } else {
        c0.tape(q)
    } by {
        assert(c1.tape(q) == m1.0[q]);
        assert(c0.tape(q) == m0.0[q]);
    }
    assert forall|q: int, i: int|
        0 <= q < c1.num_qubits() && 0 <= i < c1.tape(q).len() implies #[trigger] c1.partner(q, i)
        == if q == t && i == c0.tape(t).len() {
        None
    } else {
        c0.partner(q, i)
    } by {
        assert(c1.cx@[q]@.len() == c1.tape(q).len());
        assert(c1.partner(q, i) == m1.1[q][i]);
        assert(c0.cx@[q]@.len() == c0.tape(q).len());
        if !(q == t && i == c0.tape(t).len()) {
            assert(c0.partner(q, i) == m0.1[q][i]);
        }
    }
    assert forall|q: int, i: int, j: int|
        0 <= q < c1.num_qubits() && 0 <= i < j < c1.tape(q).len() implies #[trigger] r1(q, i)
        < #[trigger] r1(q, j) by {
        assert(c1.tape(q).len() == if q == t { c0.tape(t).len() + 1 } else { c0.tape(q).len() });
    }
    assert forall|q: int, i: int|
        0 <= q < c1.num_qubits() && 0 <= i < c1.tape(q).len() && #[trigger] c1.partner(
            q,
            i,
        ).is_some() implies r1(c1.partner(q, i).unwrap().0 as int, c1.partner(q, i).unwrap().1 as int)
        == r1(q, i) by {
        assert(c1.tape(q).len() == if q == t { c0.tape(t).len() + 1 } else { c0.tape(q).len() });
        assert(c0.partner(q, i).is_some());
        assert(c0.partner(q, i) == c1.partner(q, i));
        assert(c0.partner_ok(q, i));
    }
}

/// Appending a pair ranked above all other instances keeps the circuit
/// ranked.
proof fn lemma_ranked_pair(
    c0: &Circuit,
    c1: &Circuit,
    rank: spec_fn(int, int) -> nat,
    k: nat,
    a: int,
    b: int,
    code_a: u8,
    code_b: u8,
)
    requires
        c0.wf_partners(),
        ranked(c0, rank),
        ranks_below(c0, rank, k),
        0 <= a < c0.num_qubits(),
        0 <= b < c0.num_qubits(),
        a != b,
        c0.num_qubits() <= usize::MAX,
        c0.tape(a).len() <= usize::MAX,
        c0.tape(b).len() <= usize::MAX,
        c1.num_qubits() == c0.num_qubits(),
        c1.wf_partners(),
        c1.model() == model_push_pair(c0.model(), a, b, code_a, code_b),
    ensures
        ranked(
            c1,
            rank_with(
                rank_with(rank, a, c0.tape(a).len() as int, k),
                b,
                c0.tape(b).len() as int,
                k,
            ),
        ),
        ranks_below(
            c1,
            rank_with(
                rank_with(rank, a, c0.tape(a).len() as int, k),
                b,
                c0.tape(b).len() as int,
                k,
            ),
            k + 1,
        ),
{
    let la = c0.tape(a).len() as int;
    let lb = c0.tape(b).len() as int;
    let r2 = rank_with(rank_with(rank, a, la, k), b, lb, k);
    let m0 = c0.model();
    let m1 = c1.model();
    assert forall|q: int| 0 <= q < c1.num_qubits() implies #[trigger] c1.tape(q).len() == if q
        == a || q == b {
        c0.tape(q).len() + 1
    } else {
        c0.tape(q).len() + 0
    } by {
        assert(c1.tape(q) == m1.0[q]);
        assert(c0.tape(q) == m0.0[q]);
    }
    assert forall|q: int, i: int|
        0 <= q < c1.num_qubits() && 0 <= i < c1.tape(q).len() implies #[trigger] c1.partner(q, i)
        == if q == a && i == la {
        Some((b as usize, lb as usize))
    } else if q == b && i == lb {
        Some((a as usize, la as usize))
    } else {
        c0.partner(q, i)
    } by {
        assert(c1.cx@[q]@.len() == c1.tape(q).len());
        assert(c1.partner(q, i) == m1.1[q][i]);
        assert(c0.cx@[q]@.len() == c0.tape(q).len());
        if !(q == a && i == la) && !(q == b && i == lb) {
            assert(c0.partner(q, i) == m0.1[q][i]);
        }
    }
    assert forall|q: int, i: int, j: int|
        0 <= q < c1.num_qubits() && 0 <= i < j < c1.tape(q).len() implies #[trigger] r2(q, i)
        < #[trigger] r2(q, j) by {
        assert(c1.tape(q).len() == if q == a || q == b {
            c0.tape(q).len() + 1
        } else {
            c0.tape(q).len() + 0
        });
    }
    assert forall|q: int, i: int|
        0 <= q < c1.num_qubits() && 0 <= i < c1.tape(q).len() && #[trigger] c1.partner(
            q,
            i,
        ).is_some() implies r2(c1.partner(q, i).unwrap().0 as int, c1.partner(q, i).unwrap().1 as int)
        == r2(q, i) by {
        assert(c1.tape(q).len() == if q == a || q == b {
            c0.tape(q).len() + 1
        } else {
            c0.tape(q).len() + 0
        });
        if !(q == a && i == la) && !(q == b && i == lb) {
            assert(c0.partner(q, i) == c1.partner(q, i));
            assert(c0.partner_ok(q, i));
        }
    }
}

/// The tokens of the first malformed native line from `pos` on, if any.
pub open spec fn native_bad_line(
    b: Seq<u8>,
    pos: int,
    n: int,
    m: (Seq<Seq<u8>>, Seq<Seq<Option<(usize, usize)>>>, Seq<Seq<Option<usize>>>),
) -> Option<Seq<(usize, usize)>>
    decreases b.len() - pos,
    via native_bad_line_decreases
{
    if pos < 0 || pos >= b.len() {
        None
    } else {
        let e = spec_line_end(b, pos);
        let toks = spec_tokens(b, pos, e);
        let v = native_line(b, toks, n);
        if v is Bad {
            Some(toks)
        } else {
            native_bad_line(b, next_line(b, e), n, apply_native(m, v))
        }
    }
}

#[via_fn]
proof fn native_bad_line_decreases(
    b: Seq<u8>,
    pos: int,
    n: int,
    m: (Seq<Seq<u8>>, Seq<Seq<Option<(usize, usize)>>>, Seq<Seq<Option<usize>>>),
) {
    if 0 <= pos < b.len() {
        lemma_line_end_bounds(b, pos);
    }
}

/// A native line whose target reads well and whose keyword is unknown.
pub open spec fn native_unknown_keyword(b: Seq<u8>, toks: Seq<(usize, usize)>, n: int) -> bool {
    &&& toks.len() > 0
    &&& spec_operand(b, toks, 1, n).is_some()
    &&& !native_keywords().contains(token_bytes(b, toks[0]))
}

/// The tokens of the first malformed generic line from `pos` on, if any.
pub open spec fn generic_bad_line(
    b: Seq<u8>,
    pos: int,
    n: int,
    m: (Seq<Seq<u8>>, Seq<Seq<Option<(usize, usize)>>>, Seq<Seq<Option<usize>>>),
    angles: Seq<Seq<u8>>,
) -> Option<Seq<(usize, usize)>>
    decreases b.len() - pos,
    via generic_bad_line_decreases
{
    if pos < 0 || pos >= b.len() {
        None
    } else {
        let e = spec_line_end(b, pos);
        let toks = spec_tokens(b, pos, e);
        let v = generic_line(b, toks, n);
        if v is Bad {
            Some(toks)
        } else {
            let (m2, a2) = apply_generic(b, m, angles, v);
            generic_bad_line(b, next_line(b, e), n, m2, a2)
        }
    }
}

#[via_fn]
proof fn generic_bad_line_decreases(
    b: Seq<u8>,
    pos: int,
    n: int,
    m: (Seq<Seq<u8>>, Seq<Seq<Option<(usize, usize)>>>, Seq<Seq<Option<usize>>>),
    angles: Seq<Seq<u8>>,
) {
    if 0 <= pos < b.len() {
        lemma_line_end_bounds(b, pos);
    }
}

/// Where a text with a well-formed header fails first, if it names an
/// unknown keyword there: that keyword's bytes.
pub open spec fn native_unknown_at_first_error(b: Seq<u8>) -> Option<Seq<u8>> {
    match spec_header(b) {
        None => None,
        Some((n, a, p)) => match native_bad_line(b, p, n as int, empty_model(n as nat)) {
            Some(toks) => if native_unknown_keyword(b, toks, n as int) {
                Some(token_bytes(b, toks[0]))
            } else {
                None
            },
            None => None,
        },
    }
}

/// The same for the generic dialect, where the keyword is read first.
pub open spec fn generic_unknown_at_first_error(b: Seq<u8>) -> Option<Seq<u8>> {
    match spec_header(b) {
        None => None,
        Some((n, a, p)) => match generic_bad_line(b, p, n as int, empty_model(n as nat), Seq::empty()) {
            Some(toks) => if toks.len() > 0 && generic_code(token_bytes(b, toks[0])).is_none() {
                Some(token_bytes(b, toks[0]))
            } else {
                None
            },
            None => None,
        },
    }
}

/// Reads token `k` of a line as a qubit index below `n`.
fn qubit_operand(
    bytes: &[u8],
    toks: &Vec<(usize, usize)>,
    k: usize,
    n: usize,
    line_start: usize,
    line_stop: usize,
) -> (r: Result<usize, ParseError>)
    requires
        line_start <= line_stop <= bytes@.len(),
        tokens_ok(bytes@, line_start as int, line_stop as int, toks@),
        toks@.len() >= 1,
    ensures
        r.is_ok() == spec_operand(bytes@, toks@, k as int, n as int).is_some(),
        r.is_ok() ==> r.unwrap() == spec_operand(bytes@, toks@, k as int, n as int).unwrap(),
        r.is_ok() ==> r.unwrap() < n,
        r.is_err() ==> error_ok(r.unwrap_err(), Set::empty(), bytes@),
        r.is_err() ==> !(r.unwrap_err() is UnknownGate),
        r.is_err() && r.unwrap_err() is QubitOutOfRange ==> r.unwrap_err()->QubitOutOfRange_0 >= n,
{
    if k >= toks.len() {
        let kw = toks[0];
        return Err(ParseError::MissingOperand(copy_range(bytes, kw.0, kw.1)));
    }
    let t = toks[k];
    proof {
        assert(line_start <= toks@[k as int].0 < toks@[k as int].1 <= line_stop);
    }
    match parse_usize(bytes, t.0, t.1) {
        None => Err(ParseError::BadNumber(copy_range(bytes, t.0, t.1))),
        Some(v) => {
            if v >= n {
                Err(ParseError::QubitOutOfRange(v))
            } else {
                Ok(v)
            }
        },
    }
}

/// The header: qubit count and repetition count (1 when absent), and where
/// lines of gates start.
fn read_header(bytes: &[u8]) -> (r: Result<(usize, usize, usize), ParseError>)
    ensures
        r.is_ok() == spec_header(bytes@).is_some(),
        r.is_ok() ==> spec_header(bytes@) == Some(
            (r.unwrap().0, r.unwrap().1, r.unwrap().2 as int),
        ),
        r.is_ok() ==> r.unwrap().2 <= bytes@.len(),
        r.is_err() ==> error_ok(r.unwrap_err(), Set::empty(), bytes@),
        r.is_err() ==> !(r.unwrap_err() is UnknownGate),
{
    let len = bytes.len();
    if len == 0 {
        return Err(ParseError::MissingHeader);
    }
    let e = line_end(bytes, 0);
    let toks = split_tokens(bytes, 0, e);
    if toks.len() == 0 {
        return Err(ParseError::MissingHeader);
    }
    let t = toks[0];
    proof {
        assert(0 <= toks@[0].0 < toks@[0].1 <= e);
    }
    let num_qubits = match parse_usize(bytes, t.0, t.1) {
        None => {
            return Err(ParseError::BadNumber(copy_range(bytes, t.0, t.1)));
        },
        Some(v) => v,
    };
    let mut approx_factor: usize = 1;
    if toks.len() >= 2 {
        let t = toks[1];
        proof {
            assert(0 <= toks@[1].0 < toks@[1].1 <= e);
        }
        match parse_usize(bytes, t.0, t.1) {
            None => {
                return Err(ParseError::BadNumber(copy_range(bytes, t.0, t.1)));
            },
            Some(v) => {
                approx_factor = v;
            },
        }
    }
    let next = if e < len {
        e + 1
    } else {
        len
    };
    Ok((num_qubits, approx_factor, next))
}

impl Circuit {
    /// Reads a circuit in the native gate set: `gpi q`, `gpi2 q`, `rz q` with
    /// an optional repeat bound, `ms a b`. Blank lines are skipped and extra
    /// fields ignored. The header holds the qubit count and the repetition
    /// count; a header without the repetition count is accepted and read as
    /// repeating once (`spec_header` states this), which is also what
    /// `Circuit::new` gives.
    #[verifier::rlimit(60)]
    pub fn from_str_native(input: &str) -> (r: Result<Circuit, ParseError>)
        ensures
            r.is_ok() == native_text(input.spec_bytes()).is_some(),
            r.is_ok() ==> r.unwrap().model() == native_text(input.spec_bytes()).unwrap().0
                && r.unwrap().approx_factor == native_text(input.spec_bytes()).unwrap().1
                && r.unwrap().parameters@.len() == 0,
            r.is_ok() ==> r.unwrap().wf_native(),
            r.is_ok() ==> ordered(&r.unwrap()),
            native_unknown_at_first_error(input.spec_bytes()).is_some() ==> r.is_err()
                && r.unwrap_err() is UnknownGate && r.unwrap_err()->UnknownGate_0@
                == native_unknown_at_first_error(input.spec_bytes()).unwrap(),
            r.is_err() ==> error_ok(r.unwrap_err(), native_keywords(), input.spec_bytes()),
    {
        let bytes = input.as_bytes();
        let len = bytes.len();
        let (num_qubits, approx_factor, mut pos) = match read_header(bytes) {
            Ok(h) => h,
            Err(e) => {
                return Err(e);
            },
        };
        let mut circuit = Circuit::new(num_qubits);
        let ghost fresh = circuit;
        circuit.approx_factor = approx_factor;
        let ghost full = native_lines(bytes@, pos as int, num_qubits as int, circuit.model());
        let ghost first_bad = native_bad_line(bytes@, pos as int, num_qubits as int, circuit.model());
        let ghost mut rank: spec_fn(int, int) -> nat = |q: int, i: int| 0nat;
        let ghost mut next_rank: nat = 0;
        proof {
            assert(circuit.qubits == fresh.qubits);
            assert forall|q: int| 0 <= q < circuit.num_qubits() implies #[trigger] circuit.tape(q).len()
                == 0 by {
                assert(fresh.tape(q).len() == 0);
            }
        }
        let w_gpi: [u8; 3] = [0x67, 0x70, 0x69];
        let w_gpi2: [u8; 4] = [0x67, 0x70, 0x69, 0x32];
        let w_rz: [u8; 2] = [0x72, 0x7a];
        let w_ms: [u8; 2] = [0x6d, 0x73];
        proof {
            assert(w_gpi@ == seq![0x67u8, 0x70, 0x69]);
            assert(w_gpi2@ == seq![0x67u8, 0x70, 0x69, 0x32]);
            assert(w_rz@ == seq![0x72u8, 0x7a]);
            assert(w_ms@ == seq![0x6du8, 0x73]);
        }
        proof {
            assert(circuit.qubits == fresh.qubits && circuit.cx == fresh.cx && circuit.depths == fresh.depths);
            assert(fresh.wf_native());
            assert(circuit.wf_native());
        }
        while pos < len
            invariant
                pos <= len == bytes@.len(),
                bytes@ == input.spec_bytes(),
                circuit.wf_native(),
                circuit.num_qubits() == num_qubits,
                circuit.approx_factor == approx_factor,
                circuit.parameters@.len() == 0,
                spec_header(bytes@) == Some((num_qubits, approx_factor, full_start(bytes@))),
                full == native_lines(
                    bytes@,
                    full_start(bytes@),
                    num_qubits as int,
                    empty_model(num_qubits as nat),
                ),
                native_lines(bytes@, pos as int, num_qubits as int, circuit.model()) == full,
                native_bad_line(bytes@, pos as int, num_qubits as int, circuit.model()) == first_bad,
                first_bad == native_bad_line(
                    bytes@,
                    full_start(bytes@),
                    num_qubits as int,
                    empty_model(num_qubits as nat),
                ),
                w_gpi@ == seq![0x67u8, 0x70, 0x69],
                w_gpi2@ == seq![0x67u8, 0x70, 0x69, 0x32],
                w_rz@ == seq![0x72u8, 0x7a],
                w_ms@ == seq![0x6du8, 0x73],
                ranked(&circuit, rank),
                ranks_below(&circuit, rank, next_rank),
            decreases len - pos,
        {
            let e = line_end(bytes, pos);
            let toks = split_tokens(bytes, pos, e);
            let ghost m0 = circuit.model();
            let ghost v = native_line(bytes@, toks@, num_qubits as int);
            proof {
                assert(native_lines(bytes@, pos as int, num_qubits as int, m0) == if v is Bad {
                    None
                } else {
                    native_lines(bytes@, next_line(bytes@, e as int), num_qubits as int, apply_native(m0, v))
                });
                assert(native_bad_line(bytes@, pos as int, num_qubits as int, m0) == if v is Bad {
                    Some(toks@)
                } else {
                    native_bad_line(bytes@, next_line(bytes@, e as int), num_qubits as int, apply_native(m0, v))
                });
            }
            if toks.len() > 0 {
                let kw = toks[0];
                proof {
                    assert(pos <= toks@[0].0 < toks@[0].1 <= e);
                }
                let target = match qubit_operand(bytes, &toks, 1, num_qubits, pos, e) {
                    Ok(v) => v,
                    Err(err) => {
                        return Err(err);
                    },
                };
                let ghost c0 = circuit;
                let len_t = circuit.qubits[target].len();
                if token_is(bytes, kw.0, kw.1, &w_gpi) {
                    circuit.push_single(target, GPI, None);
                    proof {
                        lemma_ranked_single(&c0, &circuit, rank, next_rank, target as int, GPI, None);
                        rank = rank_with(rank, target as int, c0.tape(target as int).len() as int, next_rank);
                        next_rank = next_rank + 1;
                    }
                } else if token_is(bytes, kw.0, kw.1, &w_gpi2) {
                    circuit.push_single(target, GPI2, None);
                    proof {
                        lemma_ranked_single(&c0, &circuit, rank, next_rank, target as int, GPI2, None);
                        rank = rank_with(rank, target as int, c0.tape(target as int).len() as int, next_rank);
                        next_rank = next_rank + 1;
                    }
                } else if token_is(bytes, kw.0, kw.1, &w_rz) {
                    let mut depth: Option<usize> = None;
                    if toks.len() >= 3 {
                        let t = toks[2];
                        proof {
                            assert(pos <= toks@[2].0 < toks@[2].1 <= e);
                        }
                        match parse_usize(bytes, t.0, t.1) {
                            None => {
                                return Err(ParseError::BadNumber(copy_range(bytes, t.0, t.1)));
                            },
                            Some(v) => {
                                depth = Some(v);
                            },
                        }
                    }
                    circuit.push_single(target, ROT, depth);
                    proof {
                        lemma_ranked_single(&c0, &circuit, rank, next_rank, target as int, ROT, depth);
                        rank = rank_with(rank, target as int, c0.tape(target as int).len() as int, next_rank);
                        next_rank = next_rank + 1;
                    }
                } else if token_is(bytes, kw.0, kw.1, &w_ms) {
                    let target2 = match qubit_operand(bytes, &toks, 2, num_qubits, pos, e) {
                        Ok(v) => v,
                        Err(err) => {
                            return Err(err);
                        },
                    };
                    if target == target2 {
                        return Err(ParseError::SameQubit(target));
                    }
                    let len_t2 = circuit.qubits[target2].len();
                    circuit.push_pair(target, target2, MS, MS);
                    proof {
                        lemma_ranked_pair(&c0, &circuit, rank, next_rank, target as int, target2 as int, MS, MS);
                        rank = rank_with(
                            rank_with(rank, target as int, c0.tape(target as int).len() as int, next_rank),
                            target2 as int,
                            c0.tape(target2 as int).len() as int,
                            next_rank,
                        );
                        next_rank = next_rank + 1;
                    }
                } else {
                    let word = copy_range(bytes, kw.0, kw.1);
                    proof {
                        assert(!native_keywords().contains(word@));
                        assert(native_unknown_keyword(bytes@, toks@, num_qubits as int));
                    }
                    return Err(ParseError::UnknownGate(word));
                }
            }
            pos = if e < len {
                e + 1
            } else {
                len
            };
        }
        proof {
            assert(native_lines(bytes@, pos as int, num_qubits as int, circuit.model()) == Some(
                circuit.model(),
            ));
            assert(ranked(&circuit, rank));
        }
        Ok(circuit)
    }
}

impl Circuit {
    /// Reads a circuit in the generic gate set: `x`, `y`, `z`, `h`, `s`,
    /// `sdg` on one qubit, `rz q angle`, and `cx control target`. The angle
    /// is kept as written. Blank lines are skipped and extra fields ignored.
    /// As for the native dialect, a header without the repetition count is
    /// read as repeating once.
    pub fn from_str(input: &str) -> (r: Result<Circuit, ParseError>)
        ensures
            r.is_ok() == generic_text(input.spec_bytes()).is_some(),
            r.is_ok() ==> r.unwrap().model() == generic_text(input.spec_bytes()).unwrap().0
                && r.unwrap().parameters@.map_values(|a: Vec<u8>| a@) == generic_text(
                input.spec_bytes(),
            ).unwrap().1 && r.unwrap().approx_factor == generic_text(input.spec_bytes()).unwrap().2,
            r.is_ok() ==> r.unwrap().wf_partners(),
            generic_unknown_at_first_error(input.spec_bytes()).is_some() ==> r.is_err()
                && r.unwrap_err() is UnknownGate && r.unwrap_err()->UnknownGate_0@
                == generic_unknown_at_first_error(input.spec_bytes()).unwrap(),
            r.is_err() ==> error_ok(r.unwrap_err(), generic_keywords(), input.spec_bytes()),
    {
        let bytes = input.as_bytes();
        let len = bytes.len();
        let (num_qubits, approx_factor, mut pos) = match read_header(bytes) {
            Ok(h) => h,
            Err(e) => {
                return Err(e);
            },
        };
        let mut circuit = Circuit::new(num_qubits);
        circuit.approx_factor = approx_factor;
        let ghost full = generic_lines(
            bytes@,
            pos as int,
            num_qubits as int,
            circuit.model(),
            Seq::empty(),
        );
        let ghost first_bad = generic_bad_line(
            bytes@,
            pos as int,
            num_qubits as int,
            circuit.model(),
            Seq::empty(),
        );
        proof {
            assert(circuit.parameters@.map_values(|a: Vec<u8>| a@) =~= Seq::<Seq<u8>>::empty());
        }
        let w_x: [u8; 1] = [0x78];
        let w_y: [u8; 1] = [0x79];
        let w_z: [u8; 1] = [0x7a];
        let w_h: [u8; 1] = [0x68];
        let w_s: [u8; 1] = [0x73];
        let w_sdg: [u8; 3] = [0x73, 0x64, 0x67];
        let w_rz: [u8; 2] = [0x72, 0x7a];
        let w_cx: [u8; 2] = [0x63, 0x78];
        proof {
            assert(w_x@ == seq![0x78u8]);
            assert(w_y@ == seq![0x79u8]);
            assert(w_z@ == seq![0x7au8]);
            assert(w_h@ == seq![0x68u8]);
            assert(w_s@ == seq![0x73u8]);
            assert(w_sdg@ == seq![0x73u8, 0x64, 0x67]);
            assert(w_rz@ == seq![0x72u8, 0x7a]);
            assert(w_cx@ == seq![0x63u8, 0x78]);
        }
        while pos < len
            invariant
                pos <= len == bytes@.len(),
                bytes@ == input.spec_bytes(),
                circuit.wf_partners(),
                circuit.num_qubits() == num_qubits,
                circuit.approx_factor == approx_factor,
                spec_header(bytes@) == Some((num_qubits, approx_factor, full_start(bytes@))),
                full == generic_lines(
                    bytes@,
                    full_start(bytes@),
                    num_qubits as int,
                    empty_model(num_qubits as nat),
                    Seq::empty(),
                ),
                generic_lines(
                    bytes@,
                    pos as int,
                    num_qubits as int,
                    circuit.model(),
                    circuit.parameters@.map_values(|a: Vec<u8>| a@),
                ) == full,
                generic_bad_line(
                    bytes@,
                    pos as int,
                    num_qubits as int,
                    circuit.model(),
                    circuit.parameters@.map_values(|a: Vec<u8>| a@),
                ) == first_bad,
                first_bad == generic_bad_line(
                    bytes@,
                    full_start(bytes@),
                    num_qubits as int,
                    empty_model(num_qubits as nat),
                    Seq::empty(),
                ),
                w_x@ == seq![0x78u8],
                w_y@ == seq![0x79u8],
                w_z@ == seq![0x7au8],
                w_h@ == seq![0x68u8],
                w_s@ == seq![0x73u8],
                w_sdg@ == seq![0x73u8, 0x64, 0x67],
                w_rz@ == seq![0x72u8, 0x7a],
                w_cx@ == seq![0x63u8, 0x78],
            decreases len - pos,
        {
            let e = line_end(bytes, pos);
            let toks = split_tokens(bytes, pos, e);
            let ghost m0 = circuit.model();
            let ghost a0 = circuit.parameters@.map_values(|a: Vec<u8>| a@);
            let ghost v = generic_line(bytes@, toks@, num_qubits as int);
            proof {
                assert(generic_lines(bytes@, pos as int, num_qubits as int, m0, a0) == if v is Bad {
                    None
                } else {
                    generic_lines(
                        bytes@,
                        next_line(bytes@, e as int),
                        num_qubits as int,
                        apply_generic(bytes@, m0, a0, v).0,
                        apply_generic(bytes@, m0, a0, v).1,
                    )
                });
                assert(generic_bad_line(bytes@, pos as int, num_qubits as int, m0, a0) == if v is Bad {
                    Some(toks@)
                } else {
                    generic_bad_line(
                        bytes@,
                        next_line(bytes@, e as int),
                        num_qubits as int,
                        apply_generic(bytes@, m0, a0, v).0,
                        apply_generic(bytes@, m0, a0, v).1,
                    )
                });
            }
            if toks.len() > 0 {
                let kw = toks[0];
                proof {
                    assert(pos <= toks@[0].0 < toks@[0].1 <= e);
                }
                let node = if token_is(bytes, kw.0, kw.1, &w_x) {
                    NodeType::X
                } else if token_is(bytes, kw.0, kw.1, &w_y) {
                    NodeType::Y
                } else if token_is(bytes, kw.0, kw.1, &w_z) {
                    NodeType::Z
                } else if token_is(bytes, kw.0, kw.1, &w_h) {
                    NodeType::H
                } else if token_is(bytes, kw.0, kw.1, &w_s) {
                    NodeType::S
                } else if token_is(bytes, kw.0, kw.1, &w_sdg) {
                    NodeType::SDG
                } else if token_is(bytes, kw.0, kw.1, &w_rz) {
                    NodeType::RZ
                } else if token_is(bytes, kw.0, kw.1, &w_cx) {
                    NodeType::CX
                } else {
                    let word = copy_range(bytes, kw.0, kw.1);
                    proof {
                        assert(!generic_keywords().contains(word@));
                    }
                    return Err(ParseError::UnknownGate(word));
                };
                let code = node.into_byte();
                let target = match qubit_operand(bytes, &toks, 1, num_qubits, pos, e) {
                    Ok(v) => v,
                    Err(err) => {
                        return Err(err);
                    },
                };
                if code == CX_CONTROL {
                    let target2 = match qubit_operand(bytes, &toks, 2, num_qubits, pos, e) {
                        Ok(v) => v,
                        Err(err) => {
                            return Err(err);
                        },
                    };
                    if target == target2 {
                        return Err(ParseError::SameQubit(target));
                    }
                    circuit.push_pair(target, target2, CX_CONTROL, CX_TARGET);
                } else if code == ROT {
                    if toks.len() < 3 {
                        return Err(ParseError::MissingOperand(copy_range(bytes, kw.0, kw.1)));
                    }
                    let t = toks[2];
                    proof {
                        assert(pos <= toks@[2].0 < toks@[2].1 <= e);
                    }
                    circuit.push_single(target, ROT, None);
                    let angle = copy_range(bytes, t.0, t.1);
                    let ghost before = circuit;
                    circuit.parameters.push(angle);
                    proof {
                        assert forall|q: int| 0 <= q < circuit.num_qubits() implies (
                        #[trigger] circuit.cx@[q])@.len() == circuit.tape(q).len()
                            && circuit.depths@[q]@.len() == circuit.tape(q).len() by {
                            assert(before.cx@[q]@.len() == before.tape(q).len());
                        }
                        assert forall|q: int, i: int|
                            0 <= q < circuit.num_qubits() && 0 <= i < circuit.tape(q).len() implies #[trigger] circuit.partner_ok(
                            q,
                            i,
                        ) by {
                            assert(before.partner_ok(q, i));
                        }
                        assert(circuit.model() == before.model());
                        assert(circuit.parameters@.map_values(|a: Vec<u8>| a@) =~= before.parameters@.map_values(
                            |a: Vec<u8>| a@,
                        ).push(angle@));
                    }
                } else {
                    circuit.push_single(target, code, None);
                }
            }
            pos = if e < len {
                e + 1
            } else {
                len
            };
        }
        proof {
            assert(generic_lines(
                bytes@,
                pos as int,
                num_qubits as int,
                circuit.model(),
                circuit.parameters@.map_values(|a: Vec<u8>| a@),
            ) == Some((circuit.model(), circuit.parameters@.map_values(|a: Vec<u8>| a@))));
        }
        Ok(circuit)
    }
}

} // verus!
