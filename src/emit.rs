//! Writing a native circuit back to its line-oriented text.
use vstd::prelude::*;
use crate::circuit::{Circuit, GPI, GPI2, ROT, MS, MAX_OPS};
use crate::frontier::{
    cursors_ok, done, finished, ready_at, covered, pairs_in_step, ordered, start_cursors,
    lemma_done_bounded, lemma_done_step, lemma_stuck_finished, lemma_pairs_single,
    lemma_pairs_pair,
};
use crate::overlapped::any_unfinished;
use crate::parse::{native_lines, native_line, native_text, apply_native, spec_header, NativeLine};
use crate::text::{
    plain, lemma_line2, lemma_line3, number_value, decimal_value, number_digits, is_digit,
    spec_line_end, spec_tokens, next_line,
};
use crate::circuit::{empty_model, model_push_single, model_push_pair};
use crate::sector::MAX_QUBITS;

verus! {

/// The decimal digits of `v`, most significant first.
pub open spec fn decimal_digits(v: nat) -> Seq<u8>
    decreases v,
{
    if v < 10 {
        seq![(0x30 + v) as u8]
    } else {
        decimal_digits(v / 10) + seq![(0x30 + v % 10) as u8]
    }
}

/// Appends the decimal digits of `v`.
fn push_decimal(out: &mut Vec<u8>, v: usize)
    ensures
        final(out)@ == old(out)@ + decimal_digits(v as nat),
    decreases v,
{
    if v >= 10 {
        push_decimal(out, v / 10);
    }
    out.push(0x30 + (v % 10) as u8);
    proof {
        assert(final(out)@ =~= old(out)@ + decimal_digits(v as nat)) by {
            if v >= 10 {
            }
        };
    }
}

/// Relies on String::from_utf8: ASCII bytes are valid UTF-8, one character
/// each.
#[verifier::external_body]
fn ascii_string(bytes: Vec<u8>) -> (r: String)
    requires
        forall|i: int| 0 <= i < bytes@.len() ==> #[trigger] bytes@[i] < 0x80,
    ensures
        r@ == bytes@.map_values(|b: u8| b as char),
{
    String::from_utf8(bytes).unwrap()
}

/// Appends the ASCII bytes of `word`.
fn push_word(out: &mut Vec<u8>, word: &[u8])
    ensures
        final(out)@ == old(out)@ + word@,
{
    let mut k: usize = 0;
    while k < word.len()
        invariant
            k <= word@.len(),
            out@ == old(out)@ + word@.subrange(0, k as int),
        decreases word@.len() - k,
    {
        out.push(word[k]);
        k += 1;
        proof {
            assert(out@ =~= old(out)@ + word@.subrange(0, k as int));
        }
    }
    proof {
        assert(word@.subrange(0, word@.len() as int) =~= word@);
    }
}

proof fn lemma_digits_ascii(v: nat)
    ensures
        forall|i: int|
            0 <= i < decimal_digits(v).len() ==> #[trigger] decimal_digits(v)[i] < 0x80,
    decreases v,
{
    if v >= 10 {
        lemma_digits_ascii(v / 10);
        let a = decimal_digits(v / 10);
        assert(v % 10 < 10);
        assert forall|i: int|
            0 <= i < decimal_digits(v).len() implies #[trigger] decimal_digits(v)[i] < 0x80 by {
            if i < a.len() {
                assert(decimal_digits(v)[i] == a[i]);
            }
        }
    }
}

pub open spec fn all_ascii(s: Seq<u8>) -> bool {
    forall|i: int| 0 <= i < s.len() ==> #[trigger] s[i] < 0x80
}

/// Appends `v` in decimal, keeping the output ASCII.
fn push_number(out: &mut Vec<u8>, v: usize)
    requires
        all_ascii(old(out)@),
    ensures
        final(out)@ == old(out)@ + decimal_digits(v as nat),
        all_ascii(final(out)@),
{
    push_decimal(out, v);
    proof {
        lemma_digits_ascii(v as nat);
        let o = old(out)@;
        assert forall|i: int| 0 <= i < out@.len() implies #[trigger] out@[i] < 0x80 by {
            if i >= o.len() {
                assert(out@[i] == decimal_digits(v as nat)[i - o.len()]);
            }
        }
    }
}

/// Appends ASCII `word`, keeping the output ASCII.
fn push_ascii(out: &mut Vec<u8>, word: &[u8])
    requires
        all_ascii(old(out)@),
        all_ascii(word@),
    ensures
        final(out)@ == old(out)@ + word@,
        all_ascii(final(out)@),
{
    push_word(out, word);
    proof {
        let o = old(out)@;
        assert forall|i: int| 0 <= i < out@.len() implies #[trigger] out@[i] < 0x80 by {
            if i >= o.len() {
                assert(out@[i] == word@[i - o.len()]);
            }
        }
    }
}

/// Number of instances on all tapes, when within `MAX_OPS`.
fn bounded_total(c: &Circuit) -> (r: Option<usize>)
    ensures
        r.is_some() ==> r.unwrap() <= MAX_OPS,
        c.total_ops() <= MAX_OPS ==> r.is_some(),
{
    let ghost lens = c.qubits@.map_values(|t: Vec<u8>| t@.len() as int);
    let mut sum: usize = 0;
    let mut q: usize = 0;
    while q < c.qubits.len()
        invariant
            q <= c.qubits@.len(),
            sum <= MAX_OPS,
            lens == c.qubits@.map_values(|t: Vec<u8>| t@.len() as int),
            sum == crate::circuit::seq_sum(lens.subrange(0, q as int)),
        decreases c.qubits@.len() - q,
    {
        let len = c.qubits[q].len();
        proof {
            assert(lens.subrange(0, q + 1).drop_last() =~= lens.subrange(0, q as int));
        }
        if len > MAX_OPS - sum {
            proof {
                assert forall|i: int| 0 <= i < lens.len() implies #[trigger] lens[i] >= 0 by {}
                crate::scheduler::lemma_prefix_sum_le(lens, q + 1);
            }
            return None;
        }
        sum = sum + len;
        q += 1;
    }
    Some(sum)
}

/// The decimal digits of `v` read back as `v`.
pub proof fn lemma_digits_read(v: nat)
    requires
        v <= usize::MAX,
    ensures
        decimal_digits(v).len() > 0,
        plain(decimal_digits(v)),
        number_value(decimal_digits(v)) == Some(v as usize),
{
    lemma_digits_value(v);
    let d = decimal_digits(v);
    assert(number_digits(d) == d);
    assert forall|i: int| 0 <= i < d.len() implies !crate::text::is_space(#[trigger] d[i]) by {
        assert(is_digit(d[i]));
    }
}

proof fn lemma_digits_value(v: nat)
    ensures
        decimal_digits(v).len() > 0,
        forall|i: int| 0 <= i < decimal_digits(v).len() ==> is_digit(#[trigger] decimal_digits(v)[i]),
        decimal_value(decimal_digits(v)) == v,
    decreases v,
{
    let d = decimal_digits(v);
    if v < 10 {
        assert(d.drop_last() =~= Seq::<u8>::empty());
        assert(decimal_value(d) == decimal_value(d.drop_last()) * 10 + (d.last() - 0x30));
    } else {
        lemma_digits_value(v / 10);
        let a = decimal_digits(v / 10);
        assert(d.drop_last() =~= a);
        assert(v % 10 < 10);
        assert(d.last() == (0x30 + v % 10) as u8);
        assert(decimal_value(d) == decimal_value(d.drop_last()) * 10 + (d.last() - 0x30));
        assert(v == (v / 10) * 10 + v % 10);
        assert forall|i: int| 0 <= i < d.len() implies is_digit(#[trigger] d[i]) by {
            if i < a.len() {
                assert(d[i] == a[i]);
            }
        }
    }
}

/// The part of the circuit before the cursors `pos`.
pub open spec fn prefix_model(c: &Circuit, pos: Seq<usize>) -> (
    Seq<Seq<u8>>,
    Seq<Seq<Option<(usize, usize)>>>,
    Seq<Seq<Option<usize>>>,
) {
    (
        Seq::new(c.num_qubits() as nat, |q: int| c.tape(q).subrange(0, pos[q] as int)),
        Seq::new(c.num_qubits() as nat, |q: int| c.cx@[q]@.subrange(0, pos[q] as int)),
        Seq::new(c.num_qubits() as nat, |q: int| c.depths@[q]@.subrange(0, pos[q] as int)),
    )
}

proof fn lemma_prefix_start(c: &Circuit, pos: Seq<usize>)
    requires
        c.wf_native(),
        pos.len() == c.num_qubits(),
        forall|q: int| 0 <= q < pos.len() ==> #[trigger] pos[q] == 0,
    ensures
        prefix_model(c, pos) == empty_model(c.num_qubits() as nat),
{
    let m = prefix_model(c, pos);
    let e = empty_model(c.num_qubits() as nat);
    assert forall|q: int| 0 <= q < c.num_qubits() implies m.0[q] == e.0[q] && m.1[q] == e.1[q]
        && m.2[q] == e.2[q] by {
        assert(pos[q] == 0);
        assert(m.0[q] =~= e.0[q]);
        assert(m.1[q] =~= e.1[q]);
        assert(m.2[q] =~= e.2[q]);
    }
    assert(m.0 =~= e.0);
    assert(m.1 =~= e.1);
    assert(m.2 =~= e.2);
}

proof fn lemma_prefix_full(c: &Circuit, pos: Seq<usize>)
    requires
        c.wf_native(),
        pos.len() == c.num_qubits(),
        forall|q: int| 0 <= q < pos.len() ==> #[trigger] pos[q] == c.tape(q).len(),
    ensures
        prefix_model(c, pos) == c.model(),
{
    let m = prefix_model(c, pos);
    let f = c.model();
    assert forall|q: int| 0 <= q < c.num_qubits() implies m.0[q] == f.0[q] && m.1[q] == f.1[q]
        && m.2[q] == f.2[q] by {
        assert(c.cx@[q]@.len() == c.tape(q).len());
        assert(pos[q] == c.tape(q).len());
        assert(m.0[q] =~= f.0[q]);
        assert(m.1[q] =~= f.1[q]);
        assert(m.2[q] =~= f.2[q]);
    }
    assert(m.0 =~= f.0);
    assert(m.1 =~= f.1);
    assert(m.2 =~= f.2);
}

/// Passing a single-qubit instance adds it, with its repeat bound, to the
/// prefix.
proof fn lemma_prefix_single(c: &Circuit, pos: Seq<usize>, q: int)
    requires
        c.wf_native(),
        pos.len() == c.num_qubits(),
        0 <= q < c.num_qubits(),
        pos[q] < c.tape(q).len(),
        c.tape(q).len() <= usize::MAX,
        c.tape(q)[pos[q] as int] != MS,
    ensures
        prefix_model(c, pos.update(q, (pos[q] + 1) as usize)) == model_push_single(
            prefix_model(c, pos),
            q,
            c.tape(q)[pos[q] as int],
            c.depth(q, pos[q] as int),
        ),
{
    let pos1 = pos.update(q, (pos[q] + 1) as usize);
    let m0 = prefix_model(c, pos);
    let m1 = prefix_model(c, pos1);
    let m = model_push_single(m0, q, c.tape(q)[pos[q] as int], c.depth(q, pos[q] as int));
    assert(c.cx@[q]@.len() == c.tape(q).len());
    assert(c.native_entry_ok(q, pos[q] as int));
    assert(m1.0[q] =~= m.0[q]);
    assert(m1.1[q] =~= m.1[q]);
    assert(m1.2[q] =~= m.2[q]);
    assert(m1.0 =~= m.0);
    assert(m1.1 =~= m.1);
    assert(m1.2 =~= m.2);
}

/// Passing both halves of a pair adds it to the prefix.
proof fn lemma_prefix_pair(c: &Circuit, pos: Seq<usize>, q: int, p: int)
    requires
        c.wf_native(),
        pos.len() == c.num_qubits(),
        0 <= q < c.num_qubits(),
        pos[q] < c.tape(q).len(),
        c.tape(q)[pos[q] as int] == MS,
        0 <= p < c.num_qubits(),
        c.num_qubits() <= usize::MAX,
        c.tape(q).len() <= usize::MAX,
        c.tape(p).len() <= usize::MAX,
        pos[p] < c.tape(p).len(),
        c.partner(q, pos[q] as int) == Some((p as usize, pos[p])),
    ensures
        prefix_model(c, pos.update(q, (pos[q] + 1) as usize).update(p, (pos[p] + 1) as usize))
            == model_push_pair(prefix_model(c, pos), q, p, MS, MS),
{
    assert(c.cx@[q]@.len() == c.tape(q).len());
    assert(c.native_entry_ok(q, pos[q] as int));
    assert(c.cx@[p]@.len() == c.tape(p).len());
    assert(c.native_entry_ok(p, pos[p] as int));
    let pos2 = pos.update(q, (pos[q] + 1) as usize).update(p, (pos[p] + 1) as usize);
    let m0 = prefix_model(c, pos);
    let m1 = prefix_model(c, pos2);
    let m = model_push_pair(m0, q, p, MS, MS);
    assert(m1.0[q] =~= m.0[q]);
    assert(m1.1[q] =~= m.1[q]);
    assert(m1.2[q] =~= m.2[q]);
    assert(p != q);
    assert(c.tape(p)[pos[p] as int] == MS);
    assert(c.partner(p, pos[p] as int) == Some((q as usize, pos[q])));
    assert(m0.0[q].len() == pos[q]);
    assert(m1.0[p] =~= m.0[p]);
    assert(m1.1[p] =~= m.1[p]);
    assert(m1.2[p] =~= m.2[p]);
    assert(m1.0 =~= m.0);
    assert(m1.1 =~= m.1);
    assert(m1.2 =~= m.2);
}

/// Reading from `H` on any text that starts with `out` gives what reading
/// from the end of `out` gives after model `m`.
pub open spec fn reads_as(
    out: Seq<u8>,
    h: int,
    nq: int,
    m: (Seq<Seq<u8>>, Seq<Seq<Option<(usize, usize)>>>, Seq<Seq<Option<usize>>>),
) -> bool {
    forall|ext: Seq<u8>|
        #[trigger] native_lines(out + ext, h, nq, empty_model(nq as nat)) == native_lines(
            out + ext,
            out.len() as int,
            nq,
            m,
        )
}

/// One emitted line with verdict `v` extends what the text reads as.
proof fn lemma_emit_line(
    out: Seq<u8>,
    line: Seq<u8>,
    h: int,
    nq: int,
    m0: (Seq<Seq<u8>>, Seq<Seq<Option<(usize, usize)>>>, Seq<Seq<Option<usize>>>),
    v: NativeLine,
)
    requires
        reads_as(out, h, nq, m0),
        line.len() >= 1,
        !(v is Bad),
        forall|ext: Seq<u8>|
            spec_line_end(#[trigger] (out + line + ext), out.len() as int) == out.len() + line.len()
                - 1 && native_line(
                out + line + ext,
                spec_tokens(out + line + ext, out.len() as int, out.len() + line.len() - 1),
                nq,
            ) == v,
    ensures
        reads_as(out + line, h, nq, apply_native(m0, v)),
{
    assert forall|ext: Seq<u8>| #[trigger] native_lines(
        (out + line) + ext,
        h,
        nq,
        empty_model(nq as nat),
    ) == native_lines((out + line) + ext, (out + line).len() as int, nq, apply_native(m0, v)) by {
        let b = (out + line) + ext;
        assert(out + (line + ext) =~= b);
        assert(native_lines(out + (line + ext), h, nq, empty_model(nq as nat)) == native_lines(
            out + (line + ext),
            out.len() as int,
            nq,
            m0,
        ));
        assert(out + line + ext == b);
        let e = out.len() + line.len() - 1;
        assert(next_line(b, e) == (out + line).len());
    }
}

/// What a `gpi q` or `gpi2 q` line reads as, whatever follows it.
proof fn lemma_effect_single(out: Seq<u8>, line: Seq<u8>, kw: Seq<u8>, code: u8, q: nat, nq: int)
    requires
        (kw == seq![0x67u8, 0x70, 0x69] && code == GPI) || (kw == seq![0x67u8, 0x70, 0x69, 0x32]
            && code == GPI2),
        q < nq <= usize::MAX,
        line == kw + seq![0x20u8] + decimal_digits(q) + seq![0x0au8],
        out.len() + line.len() <= usize::MAX,
    ensures
        forall|ext: Seq<u8>|
            spec_line_end(#[trigger] (out + line + ext), out.len() as int) == out.len() + line.len()
                - 1 && native_line(
                out + line + ext,
                spec_tokens(out + line + ext, out.len() as int, out.len() + line.len() - 1),
                nq,
            ) == NativeLine::Single(code, q as usize),
{
    lemma_digits_read(q);
    assert(plain(kw)) by {
        assert forall|i: int| 0 <= i < kw.len() implies !crate::text::is_space(#[trigger] kw[i]) by {}
    }
    assert forall|ext: Seq<u8>|
        spec_line_end(#[trigger] (out + line + ext), out.len() as int) == out.len() + line.len() - 1
            && native_line(
            out + line + ext,
            spec_tokens(out + line + ext, out.len() as int, out.len() + line.len() - 1),
            nq,
        ) == NativeLine::Single(code, q as usize) by {
        let b = out + line + ext;
        let pos = out.len() as int;
        assert(b.subrange(pos, pos + line.len()) =~= line);
        lemma_line2(b, pos, kw, decimal_digits(q));
    }
}

/// What an `rz q d` line reads as, whatever follows it.
proof fn lemma_effect_rot(out: Seq<u8>, line: Seq<u8>, q: nat, d: nat, nq: int)
    requires
        q < nq <= usize::MAX,
        d <= usize::MAX,
        line == seq![0x72u8, 0x7a] + seq![0x20u8] + decimal_digits(q) + seq![0x20u8] + decimal_digits(d)
            + seq![0x0au8],
        out.len() + line.len() <= usize::MAX,
    ensures
        forall|ext: Seq<u8>|
            spec_line_end(#[trigger] (out + line + ext), out.len() as int) == out.len() + line.len()
                - 1 && native_line(
                out + line + ext,
                spec_tokens(out + line + ext, out.len() as int, out.len() + line.len() - 1),
                nq,
            ) == NativeLine::Rot(q as usize, Some(d as usize)),
{
    let kw = seq![0x72u8, 0x7a];
    lemma_digits_read(q);
    lemma_digits_read(d);
    assert(plain(kw)) by {
        assert forall|i: int| 0 <= i < kw.len() implies !crate::text::is_space(#[trigger] kw[i]) by {}
    }
    assert forall|ext: Seq<u8>|
        spec_line_end(#[trigger] (out + line + ext), out.len() as int) == out.len() + line.len() - 1
            && native_line(
            out + line + ext,
            spec_tokens(out + line + ext, out.len() as int, out.len() + line.len() - 1),
            nq,
        ) == NativeLine::Rot(q as usize, Some(d as usize)) by {
        let b = out + line + ext;
        let pos = out.len() as int;
        assert(b.subrange(pos, pos + line.len()) =~= line);
        lemma_line3(b, pos, kw, decimal_digits(q), decimal_digits(d));
    }
}

/// What an `ms q p` line reads as, whatever follows it.
proof fn lemma_effect_pair(out: Seq<u8>, line: Seq<u8>, q: nat, p: nat, nq: int)
    requires
        q < nq <= usize::MAX,
        p < nq,
        p != q,
        line == seq![0x6du8, 0x73] + seq![0x20u8] + decimal_digits(q) + seq![0x20u8] + decimal_digits(p)
            + seq![0x0au8],
        out.len() + line.len() <= usize::MAX,
    ensures
        forall|ext: Seq<u8>|
            spec_line_end(#[trigger] (out + line + ext), out.len() as int) == out.len() + line.len()
                - 1 && native_line(
                out + line + ext,
                spec_tokens(out + line + ext, out.len() as int, out.len() + line.len() - 1),
                nq,
            ) == NativeLine::Pair(q as usize, p as usize),
{
    let kw = seq![0x6du8, 0x73];
    lemma_digits_read(q);
    lemma_digits_read(p);
    assert(plain(kw)) by {
        assert forall|i: int| 0 <= i < kw.len() implies !crate::text::is_space(#[trigger] kw[i]) by {}
    }
    assert forall|ext: Seq<u8>|
        spec_line_end(#[trigger] (out + line + ext), out.len() as int) == out.len() + line.len() - 1
            && native_line(
            out + line + ext,
            spec_tokens(out + line + ext, out.len() as int, out.len() + line.len() - 1),
            nq,
        ) == NativeLine::Pair(q as usize, p as usize) by {
        let b = out + line + ext;
        let pos = out.len() as int;
        assert(b.subrange(pos, pos + line.len()) =~= line);
        lemma_line3(b, pos, kw, decimal_digits(q), decimal_digits(p));
    }
}

/// A text made of the header for `n` qubits and repetition count `a`
/// followed by lines that read as model `m` is read back as `m` and `a`.
proof fn lemma_text_reads_back(
    b: Seq<u8>,
    hlen: int,
    n: usize,
    a: usize,
    m: (Seq<Seq<u8>>, Seq<Seq<Option<(usize, usize)>>>, Seq<Seq<Option<usize>>>),
)
    requires
        reads_as(b, hlen, n as int, m),
        b.len() <= usize::MAX,
        hlen == ((decimal_digits(n as nat).push(0x20) + decimal_digits(a as nat)).push(0x0a)).len(),
        b.len() >= hlen,
        b.subrange(0, hlen) == (decimal_digits(n as nat).push(0x20) + decimal_digits(
            a as nat,
        )).push(0x0a),
    ensures
        native_text(b) == Some((m, a)),
{
    assert(b + Seq::<u8>::empty() =~= b);
    assert(native_lines(b + Seq::<u8>::empty(), hlen, n as int, empty_model(n as nat))
        == native_lines(b + Seq::<u8>::empty(), b.len() as int, n as int, m));
    let x = decimal_digits(n as nat);
    let y = decimal_digits(a as nat);
    lemma_digits_read(n as nat);
    lemma_digits_read(a as nat);
    assert(b.subrange(0, (x.len() + y.len() + 2) as int) =~= x + seq![0x20u8] + y + seq![0x0au8]);
    lemma_line2(b, 0, x, y);
    assert(spec_header(b) == Some((n, a, hlen)));
}

impl Circuit {
    /// The native text of the circuit: a header with the qubit count and the
    /// repetition count, then one line per gate. Passes over the qubits in
    /// order write every instance that can run, a two-qubit gate once both its
    /// qubits have reached it, until a pass writes nothing. `None` when that
    /// leaves gates unwritten (two-qubit gates that cross each other), or for
    /// circuits beyond the sizes that the schedulers accept; an ordered circuit
    /// within those sizes always gives `Some`.
    #[verifier::rlimit(100)]
    pub fn into_str(&self) -> (r: Option<String>)
        requires
            self.wf_native(),
            forall|q: int, i: int|
                0 <= q < self.num_qubits() && 0 <= i < self.tape(q).len() && #[trigger] self.tape(
                    q,
                )[i] == ROT ==> self.depth(q, i).is_some(),
        ensures
            r.is_some() ==> ({
                let header = (decimal_digits(self.num_qubits() as nat).push(0x20) + decimal_digits(
                    self.approx_factor as nat,
                )).push(0x0a);
                &&& r.unwrap()@.len() >= header.len()
                &&& r.unwrap()@.subrange(0, header.len() as int) == header.map_values(
                    |b: u8| b as char,
                )
            }),
            ordered(self) && self.num_qubits() <= MAX_QUBITS && self.total_ops() <= MAX_OPS
                ==> r.is_some(),
            r.is_some() ==> exists|bytes: Seq<u8>|
                r.unwrap()@ == bytes.map_values(|b: u8| b as char) && native_text(bytes) == Some(
                    (self.model(), self.approx_factor),
                ),
    {
        let n = self.qubits.len();
        if n > MAX_QUBITS {
            return None;
        }
        let total = match bounded_total(self) {
            Some(t) => t,
            None => {
                return None;
            },
        };
        let w_gpi: [u8; 4] = [0x67, 0x70, 0x69, 0x20];
        let w_gpi2: [u8; 5] = [0x67, 0x70, 0x69, 0x32, 0x20];
        let w_ms: [u8; 3] = [0x6d, 0x73, 0x20];
        let w_rz: [u8; 3] = [0x72, 0x7a, 0x20];
        let w_space: [u8; 1] = [0x20];
        let w_newline: [u8; 1] = [0x0a];
        let mut out: Vec<u8> = Vec::new();
        push_number(&mut out, n);
        push_ascii(&mut out, &w_space);
        push_number(&mut out, self.approx_factor);
        push_ascii(&mut out, &w_newline);
        let ghost header = out@;
        proof {
            assert(header =~= (decimal_digits(n as nat).push(0x20) + decimal_digits(
                self.approx_factor as nat,
            )).push(0x0a));
        }
        let mut pos = start_cursors(self);
        let ghost hlen = out@.len() as int;
        proof {
            lemma_prefix_start(self, pos@);
            assert forall|ext: Seq<u8>| #[trigger] native_lines(
                out@ + ext,
                hlen,
                n as int,
                empty_model(n as nat),
            ) == native_lines(out@ + ext, out@.len() as int, n as int, empty_model(n as nat)) by {}
            assert(w_gpi@ =~= seq![0x67u8, 0x70, 0x69] + seq![0x20u8]);
            assert(w_gpi2@ =~= seq![0x67u8, 0x70, 0x69, 0x32] + seq![0x20u8]);
            assert(w_rz@ =~= seq![0x72u8, 0x7a] + seq![0x20u8]);
            assert(w_ms@ =~= seq![0x6du8, 0x73] + seq![0x20u8]);
            assert(w_space@ =~= seq![0x20u8]);
            assert(w_newline@ =~= seq![0x0au8]);
        }
        let mut progressed = true;
        while progressed
            invariant
                n == self.num_qubits() <= MAX_QUBITS,
                total <= MAX_OPS,
                self.wf_native(),
                forall|q: int, i: int|
                    0 <= q < self.num_qubits() && 0 <= i < self.tape(q).len() && #[trigger] self.tape(
                        q,
                    )[i] == ROT ==> self.depth(q, i).is_some(),
                cursors_ok(self, pos@),
                pairs_in_step(self, pos@),
                reads_as(out@, hlen, n as int, prefix_model(self, pos@)),
                hlen == header.len(),
                w_gpi@ == seq![0x67u8, 0x70, 0x69] + seq![0x20u8],
                w_gpi2@ == seq![0x67u8, 0x70, 0x69, 0x32] + seq![0x20u8],
                w_rz@ == seq![0x72u8, 0x7a] + seq![0x20u8],
                w_ms@ == seq![0x6du8, 0x73] + seq![0x20u8],
                w_space@ == seq![0x20u8],
                w_newline@ == seq![0x0au8],
                !progressed ==> forall|q: int|
                    0 <= q < n ==> !#[trigger] ready_at(self, pos@, q, pos@[q] as int),
                all_ascii(out@),
                out@.len() >= header.len(),
                out@.subrange(0, header.len() as int) == header,
                all_ascii(w_gpi@),
                all_ascii(w_gpi2@),
                all_ascii(w_ms@),
                all_ascii(w_rz@),
                all_ascii(w_space@),
                all_ascii(w_newline@),
            decreases self.total_ops() - done(pos@) + if progressed {
                1int
            } else {
                0int
            },
        {
            proof {
                lemma_done_bounded(self, pos@);
            }
            let ghost pos0 = pos@;
            progressed = false;
            let mut q: usize = 0;
            while q < n
                invariant
                    q <= n == self.num_qubits() <= MAX_QUBITS,
                    self.wf_native(),
                    forall|q: int, i: int|
                        0 <= q < self.num_qubits() && 0 <= i < self.tape(q).len()
                            && #[trigger] self.tape(q)[i] == ROT ==> self.depth(q, i).is_some(),
                    cursors_ok(self, pos@),
                    pairs_in_step(self, pos@),
                    reads_as(out@, hlen, n as int, prefix_model(self, pos@)),
                    hlen == header.len(),
                    w_gpi@ == seq![0x67u8, 0x70, 0x69] + seq![0x20u8],
                    w_gpi2@ == seq![0x67u8, 0x70, 0x69, 0x32] + seq![0x20u8],
                    w_rz@ == seq![0x72u8, 0x7a] + seq![0x20u8],
                    w_ms@ == seq![0x6du8, 0x73] + seq![0x20u8],
                    w_space@ == seq![0x20u8],
                    w_newline@ == seq![0x0au8],
                    progressed ==> done(pos@) > done(pos0),
                    !progressed ==> pos@ == pos0,
                    done(pos@) >= done(pos0),
                    !progressed ==> forall|k: int|
                        0 <= k < q ==> !#[trigger] ready_at(self, pos@, k, pos@[k] as int),
                    all_ascii(out@),
                    out@.len() >= header.len(),
                    out@.subrange(0, header.len() as int) == header,
                    all_ascii(w_gpi@),
                    all_ascii(w_gpi2@),
                    all_ascii(w_ms@),
                    all_ascii(w_rz@),
                    all_ascii(w_space@),
                    all_ascii(w_newline@),
                decreases n - q,
            {
                let len = self.qubits[q].len();
                loop
                    invariant
                        q < n == self.num_qubits() <= MAX_QUBITS,
                        len == self.tape(q as int).len(),
                        self.wf_native(),
                        forall|q: int, i: int|
                            0 <= q < self.num_qubits() && 0 <= i < self.tape(q).len()
                                && #[trigger] self.tape(q)[i] == ROT ==> self.depth(q, i).is_some(),
                        cursors_ok(self, pos@),
                        pairs_in_step(self, pos@),
                        reads_as(out@, hlen, n as int, prefix_model(self, pos@)),
                        hlen == header.len(),
                        w_gpi@ == seq![0x67u8, 0x70, 0x69] + seq![0x20u8],
                        w_gpi2@ == seq![0x67u8, 0x70, 0x69, 0x32] + seq![0x20u8],
                        w_rz@ == seq![0x72u8, 0x7a] + seq![0x20u8],
                        w_ms@ == seq![0x6du8, 0x73] + seq![0x20u8],
                        w_space@ == seq![0x20u8],
                        w_newline@ == seq![0x0au8],
                        progressed ==> done(pos@) > done(pos0),
                        !progressed ==> pos@ == pos0,
                        done(pos@) >= done(pos0),
                        !progressed ==> forall|k: int|
                            0 <= k < q ==> !#[trigger] ready_at(self, pos@, k, pos@[k] as int),
                        all_ascii(out@),
                        out@.len() >= header.len(),
                        out@.subrange(0, header.len() as int) == header,
                        all_ascii(w_gpi@),
                        all_ascii(w_gpi2@),
                        all_ascii(w_ms@),
                        all_ascii(w_rz@),
                        all_ascii(w_space@),
                        all_ascii(w_newline@),
                    ensures
                        q < n == self.num_qubits(),
                        cursors_ok(self, pos@),
                        pairs_in_step(self, pos@),
                        reads_as(out@, hlen, n as int, prefix_model(self, pos@)),
                        hlen == header.len(),
                        w_gpi@ == seq![0x67u8, 0x70, 0x69] + seq![0x20u8],
                        w_gpi2@ == seq![0x67u8, 0x70, 0x69, 0x32] + seq![0x20u8],
                        w_rz@ == seq![0x72u8, 0x7a] + seq![0x20u8],
                        w_ms@ == seq![0x6du8, 0x73] + seq![0x20u8],
                        w_space@ == seq![0x20u8],
                        w_newline@ == seq![0x0au8],
                        progressed ==> done(pos@) > done(pos0),
                        !progressed ==> pos@ == pos0,
                        done(pos@) >= done(pos0),
                        !progressed ==> forall|k: int|
                            0 <= k <= q ==> !#[trigger] ready_at(self, pos@, k, pos@[k] as int),
                        all_ascii(out@),
                        out@.len() >= header.len(),
                        out@.subrange(0, header.len() as int) == header,
                    decreases len - pos@[q as int],
                {
                    let ghost out0 = out@;
                    let node_index = pos[q];
                    if node_index >= len {
                        break;
                    }
                    proof {
                        assert(self.cx@[q as int]@.len() == self.tape(q as int).len());
                        assert(self.native_entry_ok(q as int, node_index as int));
                        lemma_done_step(pos@, q as int);
                    }
                    let node = self.qubits[q][node_index];
                    let ghost o0 = out@;
                    let ghost m0 = prefix_model(self, pos@);
                    let ghost pos0 = pos@;
                    if node == GPI || node == GPI2 || node == ROT {
                        if node == GPI {
                            push_ascii(&mut out, &w_gpi);
                            push_number(&mut out, q);
                            push_ascii(&mut out, &w_newline);
                            let out_len = out.len();
                            proof {
                                let kw = seq![0x67u8, 0x70, 0x69];
                                let line = kw + seq![0x20u8] + decimal_digits(q as nat) + seq![0x0au8];
                                assert(out@ =~= o0 + line);
                                lemma_effect_single(o0, line, kw, GPI, q as nat, n as int);
                                lemma_emit_line(o0, line, hlen, n as int, m0, NativeLine::Single(GPI, q));
                            }
                        } else if node == GPI2 {
                            push_ascii(&mut out, &w_gpi2);
                            push_number(&mut out, q);
                            push_ascii(&mut out, &w_newline);
                            let out_len = out.len();
                            proof {
                                let kw = seq![0x67u8, 0x70, 0x69, 0x32];
                                let line = kw + seq![0x20u8] + decimal_digits(q as nat) + seq![0x0au8];
                                assert(out@ =~= o0 + line);
                                lemma_effect_single(o0, line, kw, GPI2, q as nat, n as int);
                                lemma_emit_line(o0, line, hlen, n as int, m0, NativeLine::Single(GPI2, q));
                            }
                        } else {
                            let depth = self.depths[q][node_index].unwrap();
                            push_ascii(&mut out, &w_rz);
                            push_number(&mut out, q);
                            push_ascii(&mut out, &w_space);
                            push_number(&mut out, depth);
                            push_ascii(&mut out, &w_newline);
                            let out_len = out.len();
                            proof {
                                let line = seq![0x72u8, 0x7a] + seq![0x20u8] + decimal_digits(q as nat)
                                    + seq![0x20u8] + decimal_digits(depth as nat) + seq![0x0au8];
                                assert(out@ =~= o0 + line);
                                lemma_effect_rot(o0, line, q as nat, depth as nat, n as int);
                                lemma_emit_line(
                                    o0,
                                    line,
                                    hlen,
                                    n as int,
                                    m0,
                                    NativeLine::Rot(q, Some(depth)),
                                );
                            }
                        }
                        proof {
                            lemma_prefix_single(self, pos@, q as int);
                        }
                        proof {
                            lemma_pairs_single(self, pos@, q as int);
                        }
                        pos.set(q, node_index + 1);
                        progressed = true;
                    } else {
                        let partner = self.cx[q][node_index].unwrap();
                        let partner_len = self.qubits[partner.0].len();
                        if pos[partner.0] != partner.1 {
                            break;
                        }
                        push_ascii(&mut out, &w_ms);
                        push_number(&mut out, q);
                        push_ascii(&mut out, &w_space);
                        push_number(&mut out, partner.0);
                        push_ascii(&mut out, &w_newline);
                        let out_len = out.len();
                        proof {
                            let line = seq![0x6du8, 0x73] + seq![0x20u8] + decimal_digits(q as nat)
                                + seq![0x20u8] + decimal_digits(partner.0 as nat) + seq![0x0au8];
                            assert(out@ =~= o0 + line);
                            lemma_effect_pair(o0, line, q as nat, partner.0 as nat, n as int);
                            lemma_emit_line(o0, line, hlen, n as int, m0, NativeLine::Pair(q, partner.0));
                            lemma_prefix_pair(self, pos@, q as int, partner.0 as int);
                            lemma_pairs_pair(self, pos@, q as int, partner.0 as int);
                            lemma_done_step(pos@.update(q as int, (node_index + 1) as usize), partner.0 as int);
                        }
                        pos.set(q, node_index + 1);
                        pos.set(partner.0, partner.1 + 1);
                        progressed = true;
                    }
                    proof {
                        lemma_done_bounded(self, pos@);
                        assert(out@.subrange(0, header.len() as int) =~= out0.subrange(
                            0,
                            header.len() as int,
                        ));
                    }
                }
                q += 1;
            }
            proof {
                lemma_done_bounded(self, pos@);
            }
        }
        proof {
            if ordered(self) {
                assert(covered(self, pos@, Seq::empty()));
                lemma_stuck_finished(self, pos@);
            }
        }
        if any_unfinished(self, &pos) {
            return None;
        }
        let final_len = out.len();
        proof {
            assert(out@.subrange(0, header.len() as int) == header);
            lemma_prefix_full(self, pos@);
            lemma_text_reads_back(out@, hlen, n, self.approx_factor, self.model());
        }
        let text = ascii_string(out);
        Some(text)
    }
}

} // verus!
