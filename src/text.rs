//! Lexing of the line-oriented circuit text: lines, whitespace-separated
//! tokens and decimal numbers, over the bytes of the input.
use vstd::prelude::*;

verus! {

pub open spec fn is_space(b: u8) -> bool {
    b == 0x20 || b == 0x09 || b == 0x0a || b == 0x0b || b == 0x0c || b == 0x0d
}

pub open spec fn is_digit(b: u8) -> bool {
    0x30 <= b <= 0x39
}

/// Value of a run of decimal digits.
pub open spec fn decimal_value(s: Seq<u8>) -> int
    decreases s.len(),
{
    if s.len() == 0 {
        0
    } else {
        decimal_value(s.drop_last()) * 10 + (s.last() - 0x30)
    }
}

/// The digits of a number as `usize::from_str` reads it: an optional `+`
/// and then at least one digit, nothing else.
pub open spec fn number_digits(s: Seq<u8>) -> Seq<u8> {
    if s.len() > 0 && s[0] == 0x2b {
        s.subrange(1, s.len() as int)
    } else {
        s
    }
}

pub open spec fn is_number(s: Seq<u8>) -> bool {
    &&& number_digits(s).len() > 0
    &&& forall|i: int| 0 <= i < number_digits(s).len() ==> is_digit(#[trigger] number_digits(s)[i])
}

/// The value of `s` as a `usize`, when it is a number that fits.
pub open spec fn number_value(s: Seq<u8>) -> Option<usize> {
    if is_number(s) && decimal_value(number_digits(s)) <= usize::MAX {
        Some(decimal_value(number_digits(s)) as usize)
    } else {
        None
    }
}

proof fn lemma_decimal_nonneg(s: Seq<u8>)
    requires
        forall|i: int| 0 <= i < s.len() ==> is_digit(#[trigger] s[i]),
    ensures
        decimal_value(s) >= 0,
    decreases s.len(),
{
    if s.len() > 0 {
        lemma_decimal_nonneg(s.drop_last());
    }
}

proof fn lemma_decimal_grows(s: Seq<u8>, k: int)
    requires
        0 <= k <= s.len(),
        forall|i: int| 0 <= i < s.len() ==> is_digit(#[trigger] s[i]),
    ensures
        decimal_value(s.subrange(0, k)) <= decimal_value(s),
    decreases s.len() - k,
{
    if k < s.len() {
        lemma_decimal_grows(s, k + 1);
        assert(s.subrange(0, k + 1).drop_last() =~= s.subrange(0, k));
        lemma_decimal_nonneg(s.subrange(0, k));
    } else {
        assert(s.subrange(0, k) =~= s);
    }
}

/// Reads `bytes[a..b]` as a `usize`.
pub fn parse_usize(bytes: &[u8], a: usize, b: usize) -> (r: Option<usize>)
    requires
        a <= b <= bytes@.len(),
    ensures
        r == number_value(bytes@.subrange(a as int, b as int)),
{
    let ghost s = bytes@.subrange(a as int, b as int);
    let mut i = a;
    if i < b && bytes[i] == 0x2b {
        i += 1;
    }
    let ghost d = number_digits(s);
    proof {
        assert(d =~= bytes@.subrange(i as int, b as int));
    }
    if i == b {
        return None;
    }
    let start = i;
    let mut value: usize = 0;
    while i < b
        invariant
            start <= i <= b <= bytes@.len(),
            s == bytes@.subrange(a as int, b as int),
            d == number_digits(s),
            d =~= bytes@.subrange(start as int, b as int),
            forall|k: int| start <= k < i ==> is_digit(#[trigger] bytes@[k]),
            value == decimal_value(bytes@.subrange(start as int, i as int)),
        decreases b - i,
    {
        let c = bytes[i];
        if c < 0x30 || c > 0x39 {
            proof {
                assert(d[i - start] == bytes@[i as int]);
                assert(!is_digit(number_digits(s)[i - start]));
            }
            return None;
        }
        proof {
            assert(bytes@.subrange(start as int, i + 1).drop_last() =~= bytes@.subrange(
                start as int,
                i as int,
            ));
        }
        let digit = (c - 0x30) as usize;
        if value > (usize::MAX - digit) / 10 {
            proof {
                let m = usize::MAX - digit;
                vstd::arithmetic::div_mod::lemma_fundamental_div_mod(m as int, 10);
                vstd::arithmetic::div_mod::lemma_mod_pos_bound(m as int, 10);
                assert(value * 10 + digit > usize::MAX);
                assert(d.subrange(0, i + 1 - start) =~= bytes@.subrange(start as int, i + 1));
                if forall|k: int| 0 <= k < d.len() ==> is_digit(#[trigger] d[k]) {
                    lemma_decimal_grows(d, i + 1 - start);
                }
            }
            return None;
        }
        value = value * 10 + (c - 0x30) as usize;
        i += 1;
    }
    proof {
        assert(bytes@.subrange(start as int, i as int) =~= d);
    }
    Some(value)
}

/// The tokens of `b[start..end]`, built byte by byte from the left: a space
/// ends a token, a non-space byte extends the token that reaches it or
/// starts a new one.
pub open spec fn spec_tokens(b: Seq<u8>, start: int, end: int) -> Seq<(usize, usize)>
    decreases end - start,
{
    if end <= start {
        Seq::empty()
    } else {
        let prev = spec_tokens(b, start, end - 1);
        if is_space(b[end - 1]) {
            prev
        } else if prev.len() > 0 && prev.last().1 == end - 1 {
            prev.drop_last().push((prev.last().0, end as usize))
        } else {
            prev.push(((end - 1) as usize, end as usize))
        }
    }
}

/// Where the line starting at `pos` ends: its `\n`, or the end of `b`.
pub open spec fn spec_line_end(b: Seq<u8>, pos: int) -> int
    decreases b.len() - pos,
{
    if pos >= b.len() {
        b.len() as int
    } else if b[pos] == 0x0a {
        pos
    } else {
        spec_line_end(b, pos + 1)
    }
}

/// Where the line after the one ending at `e` starts.
pub open spec fn next_line(b: Seq<u8>, e: int) -> int {
    if e < b.len() {
        e + 1
    } else {
        b.len() as int
    }
}

pub proof fn lemma_line_end_bounds(b: Seq<u8>, pos: int)
    requires
        0 <= pos <= b.len(),
    ensures
        pos <= spec_line_end(b, pos) <= b.len(),
    decreases b.len() - pos,
{
    if pos < b.len() && b[pos] != 0x0a {
        lemma_line_end_bounds(b, pos + 1);
    }
}

proof fn lemma_line_end_skip(b: Seq<u8>, start: int, i: int)
    requires
        0 <= start <= i <= b.len(),
        forall|k: int| start <= k < i ==> #[trigger] b[k] != 0x0a,
    ensures
        spec_line_end(b, start) == spec_line_end(b, i),
    decreases i - start,
{
    if start < i {
        lemma_line_end_skip(b, start + 1, i);
    }
}

/// End of the line that starts at `start`: the next `\n`, or the end.
pub fn line_end(bytes: &[u8], start: usize) -> (r: usize)
    requires
        start <= bytes@.len(),
    ensures
        start <= r <= bytes@.len(),
        r < bytes@.len() ==> bytes@[r as int] == 0x0a,
        forall|k: int| start <= k < r ==> #[trigger] bytes@[k] != 0x0a,
        r == spec_line_end(bytes@, start as int),
{
    let mut i = start;
    while i < bytes.len()
        invariant
            start <= i <= bytes@.len(),
            forall|k: int| start <= k < i ==> #[trigger] bytes@[k] != 0x0a,
        decreases bytes@.len() - i,
    {
        if bytes[i] == 0x0a {
            proof {
                lemma_line_end_skip(bytes@, start as int, i as int);
            }
            return i;
        }
        i += 1;
    }
    proof {
        lemma_line_end_skip(bytes@, start as int, i as int);
    }
    i
}

/// The token ranges of `bytes[start..end]`: maximal runs of non-space bytes,
/// left to right.
pub open spec fn tokens_ok(bytes: Seq<u8>, start: int, end: int, t: Seq<(usize, usize)>) -> bool {
    &&& forall|k: int|
        0 <= k < t.len() ==> start <= (#[trigger] t[k]).0 < t[k].1 <= end && (t[k].0 == start
            || is_space(bytes[t[k].0 - 1])) && (t[k].1 == end || is_space(bytes[t[k].1 as int]))
    &&& forall|k: int, m: int| 0 <= k < m < t.len() ==> (#[trigger] t[k]).1 < (#[trigger] t[m]).0
    &&& forall|k: int, p: int|
        0 <= k < t.len() && (#[trigger] t[k]).0 <= p < t[k].1 ==> !is_space(#[trigger] bytes[p])
    &&& forall|p: int|
        start <= p < end && !is_space(#[trigger] bytes[p]) ==> exists|k: int|
            0 <= k < t.len() && (#[trigger] t[k]).0 <= p < t[k].1
}

fn space(b: u8) -> (r: bool)
    ensures
        r == is_space(b),
{
    b == 0x20 || b == 0x09 || b == 0x0a || b == 0x0b || b == 0x0c || b == 0x0d
}

/// Splits `bytes[start..end]` at whitespace.
pub fn split_tokens(bytes: &[u8], start: usize, end: usize) -> (r: Vec<(usize, usize)>)
    requires
        start <= end <= bytes@.len(),
    ensures
        tokens_ok(bytes@, start as int, end as int, r@),
        r@ == spec_tokens(bytes@, start as int, end as int),
{
    let mut r: Vec<(usize, usize)> = Vec::new();
    let mut i = start;
    while i < end
        invariant
            start <= i <= end <= bytes@.len(),
            tokens_ok(bytes@, start as int, i as int, r@),
            i > start ==> is_space(bytes@[i - 1]) || (r@.len() > 0 && r@.last().1 == i),
            r@.len() > 0 && r@.last().1 == i && i < end ==> is_space(bytes@[i as int]),
            r@ == spec_tokens(bytes@, start as int, i as int),
            r@.len() > 0 ==> r@.last().1 <= i,
        decreases end - i,
    {
        let ghost r0 = r@;
        let ghost i0 = i as int;
        if space(bytes[i]) {
            i += 1;
            proof {
                assert forall|p: int|
                    start <= p < i && !is_space(#[trigger] bytes@[p]) implies exists|k: int|
                    0 <= k < r0.len() && (#[trigger] r0[k]).0 <= p < r0[k].1 by {
                    assert(p < i0);
                }
            }
        } else {
            let a = i;
            proof {
                if r0.len() > 0 && r0.last().1 == a {
                    assert(is_space(bytes@[a as int]));
                }
            }
            while i < end && !space(bytes[i])
                invariant
                    start <= a <= i <= end <= bytes@.len(),
                    a < end,
                    forall|p: int| a <= p < i ==> !is_space(#[trigger] bytes@[p]),
                    r@ == r0,
                    r0.len() > 0 ==> r0.last().1 < a,
                    i == a ==> spec_tokens(bytes@, start as int, i as int) == r0,
                    i > a ==> spec_tokens(bytes@, start as int, i as int) == r0.push((a, i)),
                decreases end - i,
            {
                i += 1;
            }
            r.push((a, i));
            proof {
                let t = r@;
                assert(t.len() == r0.len() + 1 && t.last() == (a, i));
                assert forall|k: int| 0 <= k < r0.len() implies (#[trigger] r0[k]).1 < a by {
                    if r0[k].1 == a {
                        assert(forall|m: int, l: int| 0 <= m < l < r0.len() ==> (#[trigger] r0[m]).1 < (#[trigger] r0[l]).0);
                        if k < r0.len() - 1 {
                            assert(r0[k].1 < r0[r0.len() - 1].0);
                        }
                        assert(r0.last().1 == a);
                    }
                }
                assert forall|k: int|
                    0 <= k < t.len() implies start <= (#[trigger] t[k]).0 < t[k].1 <= i && (
                    t[k].0 == start || is_space(bytes@[t[k].0 - 1])) && (t[k].1 == i || is_space(
                    bytes@[t[k].1 as int],
                )) by {
                    if k < r0.len() {
                        assert(t[k] == r0[k]);
                        assert(r0[k].1 < a);
                        if r0[k].1 < i0 {
                        }
                    } else {
                        if a > start {
                            if !is_space(bytes@[a - 1]) {
                                assert(r0.len() > 0 && r0.last().1 == a);
                            }
                        }
                    }
                }
                assert forall|k: int, m: int| 0 <= k < m < t.len() implies (#[trigger] t[k]).1 < (
                #[trigger] t[m]).0 by {
                    if m < r0.len() {
                        assert(t[k] == r0[k] && t[m] == r0[m]);
                    } else {
                        assert(t[k] == r0[k]);
                    }
                }
                assert forall|k: int, p: int|
                    0 <= k < t.len() && (#[trigger] t[k]).0 <= p < t[k].1 implies !is_space(
                    #[trigger] bytes@[p],
                ) by {
                    if k < r0.len() {
                        assert(t[k] == r0[k]);
                    }
                }
                assert forall|p: int|
                    start <= p < i && !is_space(#[trigger] bytes@[p]) implies exists|k: int|
                    0 <= k < t.len() && (#[trigger] t[k]).0 <= p < t[k].1 by {
                    if p < a {
                        if a > start && is_space(bytes@[a - 1]) || a == start || p < i0 {
                            let k = choose|k: int| 0 <= k < r0.len() && (#[trigger] r0[k]).0 <= p < r0[k].1;
                            assert(t[k] == r0[k]);
                        }
                    } else {
                        assert(t[r0.len() as int] == (a, i));
                    }
                }
            }
        }
    }
    r
}

/// Whether `bytes[a..b]` spells `word`.
pub fn token_is(bytes: &[u8], a: usize, b: usize, word: &[u8]) -> (r: bool)
    requires
        a <= b <= bytes@.len(),
    ensures
        r == (bytes@.subrange(a as int, b as int) == word@),
{
    if b - a != word.len() {
        return false;
    }
    let mut k: usize = 0;
    while k < word.len()
        invariant
            a <= b <= bytes@.len(),
            b - a == word@.len(),
            k <= word@.len(),
            forall|j: int| 0 <= j < k ==> bytes@[a + j] == #[trigger] word@[j],
        decreases word@.len() - k,
    {
        if bytes[a + k] != word[k] {
            proof {
                assert(bytes@.subrange(a as int, b as int)[k as int] != word@[k as int]);
            }
            return false;
        }
        k += 1;
    }
    proof {
        assert(bytes@.subrange(a as int, b as int) =~= word@);
    }
    true
}

/// A copy of `bytes[a..b]`.
pub fn copy_range(bytes: &[u8], a: usize, b: usize) -> (r: Vec<u8>)
    requires
        a <= b <= bytes@.len(),
    ensures
        r@ == bytes@.subrange(a as int, b as int),
{
    let mut r: Vec<u8> = Vec::new();
    let mut k = a;
    while k < b
        invariant
            a <= k <= b <= bytes@.len(),
            r@ == bytes@.subrange(a as int, k as int),
        decreases b - k,
    {
        r.push(bytes[k]);
        proof {
            assert(r@ =~= bytes@.subrange(a as int, k + 1));
        }
        k += 1;
    }
    r
}


/// No byte of `s` is whitespace (in particular no newline).
pub open spec fn plain(s: Seq<u8>) -> bool {
    forall|i: int| 0 <= i < s.len() ==> !is_space(#[trigger] s[i])
}

proof fn lemma_tokens_end(b: Seq<u8>, s: int, e: int)
    requires
        0 <= s,
        e <= usize::MAX,
    ensures
        forall|k: int|
            0 <= k < spec_tokens(b, s, e).len() ==> (#[trigger] spec_tokens(b, s, e)[k]).1 <= e,
        spec_tokens(b, s, e).len() > 0 && spec_tokens(b, s, e).last().1 == e ==> s < e
            && !is_space(b[e - 1]),
    decreases e - s,
{
    if e > s {
        lemma_tokens_end(b, s, e - 1);
        let prev = spec_tokens(b, s, e - 1);
        let t = spec_tokens(b, s, e);
        if is_space(b[e - 1]) {
            assert(t == prev);
        } else if prev.len() > 0 && prev.last().1 == e - 1 {
            assert(t == prev.drop_last().push((prev.last().0, e as usize)));
            assert forall|k: int| 0 <= k < t.len() implies (#[trigger] t[k]).1 <= e by {
                if k < t.len() - 1 {
                    assert(t[k] == prev[k]);
                }
            }
        } else {
            assert(t == prev.push(((e - 1) as usize, e as usize)));
            assert forall|k: int| 0 <= k < t.len() implies (#[trigger] t[k]).1 <= e by {
                if k < t.len() - 1 {
                    assert(t[k] == prev[k]);
                }
            }
        }
    }
}

/// A word `[a, c)` after whitespace (or at the start) is the next token.
proof fn lemma_tokens_word(b: Seq<u8>, s: int, a: int, c: int)
    requires
        0 <= s <= a < c <= b.len(),
        c <= usize::MAX,
        forall|x: int| a <= x < c ==> !is_space(#[trigger] b[x]),
        a == s || is_space(b[a - 1]),
    ensures
        spec_tokens(b, s, c) == spec_tokens(b, s, a).push((a as usize, c as usize)),
    decreases c - a,
{
    if c == a + 1 {
        lemma_tokens_end(b, s, a);
    } else {
        lemma_tokens_word(b, s, a, c - 1);
        let t = spec_tokens(b, s, a);
        assert(spec_tokens(b, s, c - 1).drop_last() =~= t);
    }
}

/// The tokens and end of a line `A B\n` at `pos`.
pub proof fn lemma_line2(b: Seq<u8>, pos: int, x: Seq<u8>, y: Seq<u8>)
    requires
        0 <= pos,
        pos + x.len() + y.len() + 2 <= b.len(),
        pos + x.len() + y.len() + 2 <= usize::MAX,
        x.len() > 0,
        y.len() > 0,
        plain(x),
        plain(y),
        b.subrange(pos, pos + x.len() + y.len() + 2) == x + seq![0x20u8] + y + seq![0x0au8],
    ensures
        spec_line_end(b, pos) == pos + x.len() + y.len() + 1,
        spec_tokens(b, pos, pos + x.len() + y.len() + 1) == seq![
            (pos as usize, (pos + x.len()) as usize),
            ((pos + x.len() + 1) as usize, (pos + x.len() + y.len() + 1) as usize),
        ],
        b.subrange(pos, pos + x.len()) == x,
        b.subrange(pos + x.len() + 1, pos + x.len() + y.len() + 1) == y,
{
    let l = x + seq![0x20u8] + y + seq![0x0au8];
    let a1 = pos + x.len();
    let e = a1 + 1 + y.len();
    assert forall|i: int| pos <= i < e + 1 implies b[i] == #[trigger] l[i - pos] by {
        assert(b.subrange(pos, e + 1)[i - pos] == b[i]);
    }
    assert forall|i: int| pos <= i < a1 implies !is_space(#[trigger] b[i]) by {
        assert(l[i - pos] == x[i - pos]);
    }
    assert forall|i: int| a1 + 1 <= i < e implies !is_space(#[trigger] b[i]) by {
        assert(l[i - pos] == y[i - pos - x.len() - 1]);
    }
    assert(l[x.len() as int] == 0x20u8);
    assert(l[e - pos] == 0x0au8);
    lemma_tokens_word(b, pos, pos, a1);
    assert(spec_tokens(b, pos, pos) =~= Seq::<(usize, usize)>::empty());
    assert(spec_tokens(b, pos, a1 + 1) == spec_tokens(b, pos, a1));
    lemma_tokens_word(b, pos, a1 + 1, e);
    assert(spec_tokens(b, pos, e) =~= seq![
        (pos as usize, a1 as usize),
        ((a1 + 1) as usize, e as usize),
    ]);
    assert forall|k: int| pos <= k < e implies #[trigger] b[k] != 0x0a by {
        if k < a1 {
            assert(!is_space(b[k]));
        } else if k > a1 {
            assert(!is_space(b[k]));
        }
    }
    lemma_line_end_skip(b, pos, e);
    assert(b.subrange(pos, a1) =~= x);
    assert forall|i: int| 0 <= i < y.len() implies #[trigger] b.subrange(a1 + 1, e)[i] == y[i] by {
        assert(b[a1 + 1 + i] == l[x.len() + 1 + i]);
    }
    assert(b.subrange(a1 + 1, e) =~= y);
}

/// The tokens and end of a line `A B C\n` at `pos`.
pub proof fn lemma_line3(b: Seq<u8>, pos: int, x: Seq<u8>, y: Seq<u8>, z: Seq<u8>)
    requires
        0 <= pos,
        pos + x.len() + y.len() + z.len() + 3 <= b.len(),
        pos + x.len() + y.len() + z.len() + 3 <= usize::MAX,
        x.len() > 0,
        y.len() > 0,
        z.len() > 0,
        plain(x),
        plain(y),
        plain(z),
        b.subrange(pos, pos + x.len() + y.len() + z.len() + 3) == x + seq![0x20u8] + y + seq![
            0x20u8,
        ] + z + seq![0x0au8],
    ensures
        spec_line_end(b, pos) == pos + x.len() + y.len() + z.len() + 2,
        spec_tokens(b, pos, pos + x.len() + y.len() + z.len() + 2) == seq![
            (pos as usize, (pos + x.len()) as usize),
            ((pos + x.len() + 1) as usize, (pos + x.len() + y.len() + 1) as usize),
            (
                (pos + x.len() + y.len() + 2) as usize,
                (pos + x.len() + y.len() + z.len() + 2) as usize,
            ),
        ],
        b.subrange(pos, pos + x.len()) == x,
        b.subrange(pos + x.len() + 1, pos + x.len() + y.len() + 1) == y,
        b.subrange(pos + x.len() + y.len() + 2, pos + x.len() + y.len() + z.len() + 2) == z,
{
    let l = x + seq![0x20u8] + y + seq![0x20u8] + z + seq![0x0au8];
    let a1 = pos + x.len();
    let a2 = a1 + 1 + y.len();
    let e = a2 + 1 + z.len();
    assert forall|i: int| pos <= i < e + 1 implies b[i] == #[trigger] l[i - pos] by {
        assert(b.subrange(pos, e + 1)[i - pos] == b[i]);
    }
    assert forall|i: int| pos <= i < a1 implies !is_space(#[trigger] b[i]) by {
        assert(l[i - pos] == x[i - pos]);
    }
    assert forall|i: int| a1 + 1 <= i < a2 implies !is_space(#[trigger] b[i]) by {
        assert(l[i - pos] == y[i - pos - x.len() - 1]);
    }
    assert forall|i: int| a2 + 1 <= i < e implies !is_space(#[trigger] b[i]) by {
        assert(l[i - pos] == z[i - pos - x.len() - y.len() - 2]);
    }
    assert(l[x.len() as int] == 0x20u8);
    assert(l[a2 - pos] == 0x20u8);
    assert(l[e - pos] == 0x0au8);
    lemma_tokens_word(b, pos, pos, a1);
    assert(spec_tokens(b, pos, pos) =~= Seq::<(usize, usize)>::empty());
    assert(spec_tokens(b, pos, a1 + 1) == spec_tokens(b, pos, a1));
    lemma_tokens_word(b, pos, a1 + 1, a2);
    assert(spec_tokens(b, pos, a2 + 1) == spec_tokens(b, pos, a2));
    lemma_tokens_word(b, pos, a2 + 1, e);
    assert(spec_tokens(b, pos, e) =~= seq![
        (pos as usize, a1 as usize),
        ((a1 + 1) as usize, a2 as usize),
        ((a2 + 1) as usize, e as usize),
    ]);
    assert forall|k: int| pos <= k < e implies #[trigger] b[k] != 0x0a by {
        if k != a1 && k != a2 {
            assert(!is_space(b[k]));
        }
    }
    lemma_line_end_skip(b, pos, e);
    assert(b.subrange(pos, a1) =~= x);
    assert forall|i: int| 0 <= i < y.len() implies #[trigger] b.subrange(a1 + 1, a2)[i] == y[i] by {
        assert(b[a1 + 1 + i] == l[x.len() + 1 + i]);
    }
    assert forall|i: int| 0 <= i < z.len() implies #[trigger] b.subrange(a2 + 1, e)[i] == z[i] by {
        assert(b[a2 + 1 + i] == l[x.len() + y.len() + 2 + i]);
    }
    assert(b.subrange(a1 + 1, a2) =~= y);
    assert(b.subrange(a2 + 1, e) =~= z);
}

} // verus!
