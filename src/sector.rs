//! Sector geometry of the shuttled chain and the shuttle's sweep.
use vstd::prelude::*;
use vstd::arithmetic::div_mod::{lemma_fundamental_div_mod, lemma_div_is_ordered, lemma_mod_pos_bound};

verus! {

/// Largest chain length the schedulers accept.
pub const MAX_QUBITS: usize = 0x1000_0000;

/// Largest sector size the schedulers accept.
pub const MAX_SECTOR_SIZE: usize = 0x1_0000;

/// Largest number of empty buffer sectors the schedulers accept.
pub const MAX_EMPTY_SECTORS: usize = 0x1000;

/// Sector index of position `x` when the chain is cut into blocks of
/// `sector_size` execution slots followed by one correction slot: execution
/// sectors get even indices, the correction slot after them the next odd one.
pub open spec fn sector_of(x: int, sector_size: int) -> int {
    x / (sector_size + 1) * 2 + if x % (sector_size + 1) == sector_size {
        1int
    } else {
        0int
    }
}

/// Whether position `x` lies in an execution (horizontal) sector.
pub open spec fn is_horizontal_at(x: int, sector_size: int) -> bool {
    x % (sector_size + 1) != sector_size
}

/// Sector of a physical position, blocks of `sector_size + 1` slots.
pub fn compute_current_sector(physical: usize, sector_size: usize) -> (r: usize)
    requires
        1 <= sector_size < usize::MAX,
    ensures
        r as int == sector_of(physical as int, sector_size as int),
        (r % 2 == 0) == is_horizontal_at(physical as int, sector_size as int),
{
    let m = sector_size + 1;
    proof {
        let x = physical as int;
        let d = m as int;
        lemma_fundamental_div_mod(x, d);
        lemma_mod_pos_bound(x, d);
        let a = x / d;
        assert(a >= 0) by {
            vstd::arithmetic::div_mod::lemma_div_pos_is_pos(x, d);
        }
        assert(d * a >= 2 * a) by (nonlinear_arith)
            requires
                d >= 2,
                a >= 0,
        ;
    }
    let mut sector_num = physical / m * 2;
    if physical % m == sector_size {
        sector_num += 1;
    }
    sector_num
}

/// The first block of the chain under a shift of `offset`: slot range
/// `[r.0, r.1)` and whether it is an execution block.
pub fn compute_phys(sector_size: usize, offset: usize) -> (r: (usize, usize, bool))
    requires
        1 <= sector_size < usize::MAX,
    ensures
        r.0 == 0,
        r.2 == (offset as int % (sector_size as int + 1) != sector_size as int),
        r.2 ==> r.1 as int == sector_size as int - offset as int % (sector_size as int + 1),
        !r.2 ==> r.1 == 1,
        1 <= r.1 <= sector_size,
{
    let first_phys: usize = 0;
    let offset_mod = offset % (sector_size + 1);
    let last_phys: usize;
    let is_horizontal: bool;
    if offset_mod != sector_size {
        last_phys = sector_size - offset_mod;
        is_horizontal = true;
    } else {
        last_phys = 1;
        is_horizontal = false;
    }
    (first_phys, last_phys, is_horizontal)
}

/// The slot `choose_shuttle` picks in `[first, last)`: shuttling right, the
/// rightmost slot marked to move, else the rightmost not marked to stop, else
/// the last slot; shuttling left the same from the left end.
pub open spec fn shuttle_choice_ok(
    first: int,
    last: int,
    move_qubit: Seq<bool>,
    stop_qubit: Seq<bool>,
    shuttle_right: bool,
    r: int,
) -> bool {
    &&& first <= r < last
    &&& if shuttle_right {
        if (exists|i: int| first <= i < last && move_qubit[i]) {
            move_qubit[r] && forall|j: int| r < j < last ==> !move_qubit[j]
        } else if (exists|i: int| first <= i < last && !stop_qubit[i]) {
            !stop_qubit[r] && forall|j: int| r < j < last ==> stop_qubit[j]
        } else {
            r == last - 1
        }
    } else {
        if (exists|i: int| first <= i < last && move_qubit[i]) {
            move_qubit[r] && forall|j: int| first <= j < r ==> !move_qubit[j]
        } else if (exists|i: int| first <= i < last && !stop_qubit[i]) {
            !stop_qubit[r] && forall|j: int| first <= j < r ==> stop_qubit[j]
        } else {
            r == first
        }
    }
}

/// Picks the slot of a block that a swap should bring to the block's edge.
pub fn choose_shuttle(
    first: usize,
    last: usize,
    move_qubit: &[bool],
    stop_qubit: &[bool],
    shuttle_right: bool,
) -> (r: usize)
    requires
        first < last <= move_qubit@.len(),
        last <= stop_qubit@.len(),
    ensures
        shuttle_choice_ok(
            first as int,
            last as int,
            move_qubit@,
            stop_qubit@,
            shuttle_right,
            r as int,
        ),
{
    if shuttle_right {
        let mut i = last;
        while i > first
            invariant
                shuttle_right,
                first <= i <= last <= move_qubit@.len(),
                forall|j: int| i <= j < last ==> !move_qubit@[j],
            decreases i,
        {
            i -= 1;
            if move_qubit[i] {
                assert(first <= i < last && move_qubit@[i as int]);
                return i;
            }
        }
        let mut i = last;
        while i > first
            invariant
                shuttle_right,
                last <= move_qubit@.len(),
                first <= i <= last <= stop_qubit@.len(),
                forall|j: int| first <= j < last ==> !move_qubit@[j],
                forall|j: int| i <= j < last ==> stop_qubit@[j],
            decreases i,
        {
            i -= 1;
            if !stop_qubit[i] {
                assert(first <= i < last && !stop_qubit@[i as int]);
                return i;
            }
        }
        last - 1
    } else {
        let mut i = first;
        while i < last
            invariant
                !shuttle_right,
                first <= i <= last <= move_qubit@.len(),
                forall|j: int| first <= j < i ==> !move_qubit@[j],
            decreases last - i,
        {
            if move_qubit[i] {
                assert(first <= i < last && move_qubit@[i as int]);
                return i;
            }
            i += 1;
        }
        let mut i = first;
        while i < last
            invariant
                !shuttle_right,
                last <= move_qubit@.len(),
                first <= i <= last <= stop_qubit@.len(),
                forall|j: int| first <= j < last ==> !move_qubit@[j],
                forall|j: int| first <= j < i ==> stop_qubit@[j],
            decreases last - i,
        {
            if !stop_qubit[i] {
                assert(first <= i < last && !stop_qubit@[i as int]);
                return i;
            }
            i += 1;
        }
        first
    }
}

/// How far the partition of blocks of `sector_size` execution slots and one
/// correction slot sweeps over a chain of `n` slots with `empty` spare blocks.
pub open spec fn qec_max_shift(n: int, sector_size: int, empty: int) -> int {
    if n % (sector_size + 1) == 0 {
        empty * sector_size + (empty - 1)
    } else {
        (sector_size + 1) - n % (sector_size + 1) + empty * (sector_size + 1) - 1
    }
}

/// How far the partition of plain blocks of `sector_size` slots sweeps over a
/// chain of `n` slots with `empty` spare blocks.
pub open spec fn plain_max_shift(n: int, sector_size: int, empty: int) -> int {
    if n % sector_size == 0 {
        empty * sector_size
    } else {
        sector_size - n % sector_size + empty * sector_size
    }
}

/// The sizes the schedulers work with.
pub open spec fn params_ok(n: int, sector_size: int, empty: int) -> bool {
    &&& n <= MAX_QUBITS
    &&& 1 <= sector_size <= MAX_SECTOR_SIZE
    &&& 1 <= empty <= MAX_EMPTY_SECTORS
}

proof fn lemma_small_products(sector_size: int, empty: int)
    requires
        1 <= sector_size <= MAX_SECTOR_SIZE,
        1 <= empty <= MAX_EMPTY_SECTORS,
    ensures
        empty * sector_size <= MAX_SECTOR_SIZE * MAX_EMPTY_SECTORS,
        empty * (sector_size + 1) <= (MAX_SECTOR_SIZE + 1) * MAX_EMPTY_SECTORS,
        empty * sector_size >= sector_size,
        empty * (sector_size + 1) >= sector_size + 1,
{
    assert(empty * sector_size <= MAX_SECTOR_SIZE * MAX_EMPTY_SECTORS) by (nonlinear_arith)
        requires
            1 <= sector_size <= MAX_SECTOR_SIZE,
            1 <= empty <= MAX_EMPTY_SECTORS,
    ;
    assert(empty * (sector_size + 1) <= (MAX_SECTOR_SIZE + 1) * MAX_EMPTY_SECTORS)
        by (nonlinear_arith)
        requires
            1 <= sector_size <= MAX_SECTOR_SIZE,
            1 <= empty <= MAX_EMPTY_SECTORS,
    ;
    assert(empty * sector_size >= sector_size) by (nonlinear_arith)
        requires
            1 <= sector_size,
            1 <= empty,
    ;
    assert(empty * (sector_size + 1) >= sector_size + 1) by (nonlinear_arith)
        requires
            1 <= sector_size,
            1 <= empty,
    ;
}

/// Sweep range of the correction-zone policies.
pub fn compute_qec_max_shift(n: usize, sector_size: usize, empty: usize) -> (r: usize)
    requires
        params_ok(n as int, sector_size as int, empty as int),
    ensures
        r as int == qec_max_shift(n as int, sector_size as int, empty as int),
        sector_size <= r,
        1 <= r <= 2 * MAX_SECTOR_SIZE * MAX_EMPTY_SECTORS,
        (n as int + r as int + 1) % (sector_size as int + 1) == 0,
{
    proof {
        lemma_small_products(sector_size as int, empty as int);
        let d = sector_size as int + 1;
        lemma_fundamental_div_mod(n as int, d);
        lemma_mod_pos_bound(n as int, d);
        let q = n as int / d;
        let rem = n as int % d;
        let ms = qec_max_shift(n as int, sector_size as int, empty as int);
        if rem == 0 {
            assert(n as int + ms + 1 == d * (q + empty as int)) by (nonlinear_arith)
                requires
                    n as int == d * q,
                    ms == empty as int * (d - 1) + empty as int - 1,
            ;
            vstd::arithmetic::div_mod::lemma_mod_multiples_basic(q + empty as int, d);
            assert(d * (q + empty as int) == (q + empty as int) * d) by (nonlinear_arith);
        } else {
            assert(n as int + ms + 1 == d * (q + 1 + empty as int)) by (nonlinear_arith)
                requires
                    n as int == d * q + rem,
                    ms == d - rem + empty as int * d - 1,
            ;
            vstd::arithmetic::div_mod::lemma_mod_multiples_basic(q + 1 + empty as int, d);
            assert(d * (q + 1 + empty as int) == (q + 1 + empty as int) * d)
                by (nonlinear_arith);
        }
    }
    if n % (sector_size + 1) == 0 {
        empty * sector_size + (empty - 1)
    } else {
        (sector_size + 1) - n % (sector_size + 1) + empty * (sector_size + 1) - 1
    }
}

/// Sweep range of the policy without correction zones.
pub fn compute_plain_max_shift(n: usize, sector_size: usize, empty: usize) -> (r: usize)
    requires
        params_ok(n as int, sector_size as int, empty as int),
    ensures
        r as int == plain_max_shift(n as int, sector_size as int, empty as int),
        sector_size <= r,
        1 <= r <= 2 * MAX_SECTOR_SIZE * MAX_EMPTY_SECTORS,
        (n as int + r as int) % (sector_size as int) == 0,
{
    proof {
        lemma_small_products(sector_size as int, empty as int);
        let d = sector_size as int;
        lemma_fundamental_div_mod(n as int, d);
        lemma_mod_pos_bound(n as int, d);
        let q = n as int / d;
        let rem = n as int % d;
        let ms = plain_max_shift(n as int, sector_size as int, empty as int);
        if rem == 0 {
            assert(n as int + ms == (q + empty as int) * d) by (nonlinear_arith)
                requires
                    n as int == d * q,
                    ms == empty as int * d,
            ;
            vstd::arithmetic::div_mod::lemma_mod_multiples_basic(q + empty as int, d);
        } else {
            assert(n as int + ms == (q + 1 + empty as int) * d) by (nonlinear_arith)
                requires
                    n as int == d * q + rem,
                    ms == d - rem + empty as int * d,
            ;
            vstd::arithmetic::div_mod::lemma_mod_multiples_basic(q + 1 + empty as int, d);
        }
    }
    if n % sector_size == 0 {
        empty * sector_size
    } else {
        sector_size - n % sector_size + empty * sector_size
    }
}

/// Position `x` below `limit`, where `limit + 1` is a whole number of blocks,
/// has a sector index below `limit / (sector_size + 1) * 2 + 1`.
pub proof fn lemma_sector_below(x: int, limit: int, sector_size: int)
    requires
        0 <= x < limit,
        1 <= sector_size,
    ensures
        0 <= sector_of(x, sector_size) < limit / (sector_size + 1) * 2 + 1,
{
    let d = sector_size + 1;
    lemma_fundamental_div_mod(x, d);
    lemma_mod_pos_bound(x, d);
    lemma_div_is_ordered(x, limit, d);
    vstd::arithmetic::div_mod::lemma_div_pos_is_pos(x, d);
    let a = x / d;
    if x % d == sector_size {
        assert(x + 1 == d * (a + 1)) by (nonlinear_arith)
            requires
                x == d * a + (d - 1),
        ;
        lemma_div_is_ordered(x + 1, limit, d);
        vstd::arithmetic::div_mod::lemma_div_multiples_vanish(a + 1, d);
    }
}

/// The position after a correction slot is an execution slot.
pub proof fn lemma_after_correction_slot(x: int, sector_size: int)
    requires
        0 <= x,
        1 <= sector_size,
        !is_horizontal_at(x, sector_size),
    ensures
        is_horizontal_at(x + 1, sector_size),
{
    let d = sector_size + 1;
    lemma_fundamental_div_mod(x, d);
    lemma_mod_pos_bound(x, d);
    let a = x / d;
    assert(x + 1 == (a + 1) * d) by (nonlinear_arith)
        requires
            x == d * a + (d - 1),
    ;
    vstd::arithmetic::div_mod::lemma_mod_multiples_basic(a + 1, d);
}

/// The position before a correction slot is an execution slot.
pub proof fn lemma_before_correction_slot(x: int, sector_size: int)
    requires
        1 <= x,
        1 <= sector_size,
        !is_horizontal_at(x, sector_size),
    ensures
        is_horizontal_at(x - 1, sector_size),
{
    let d = sector_size + 1;
    lemma_fundamental_div_mod(x, d);
    lemma_mod_pos_bound(x, d);
    let a = x / d;
    vstd::arithmetic::div_mod::lemma_mod_multiples_vanish(a, sector_size - 1, d);
    assert(x - 1 == d * a + (sector_size - 1));
    vstd::arithmetic::div_mod::lemma_small_mod((sector_size - 1) as nat, d as nat);
}

/// Moving by one whole block keeps a position's kind.
pub proof fn lemma_shift_block(x: int, sector_size: int)
    requires
        0 <= x,
        1 <= sector_size,
    ensures
        is_horizontal_at(x + sector_size + 1, sector_size) == is_horizontal_at(x, sector_size),
{
    vstd::arithmetic::div_mod::lemma_mod_multiples_vanish(1, x, sector_size + 1);
    assert((sector_size + 1) * 1 + x == x + sector_size + 1);
}

/// The slot ending the first block of `compute_phys` is a correction slot,
/// and so is slot 0 when the first block is one.
pub proof fn lemma_first_block(offset: int, sector_size: int, last: int, horizontal: bool)
    requires
        0 <= offset,
        1 <= sector_size,
        horizontal == (offset % (sector_size + 1) != sector_size),
        horizontal ==> last == sector_size - offset % (sector_size + 1),
        !horizontal ==> last == 1,
    ensures
        horizontal ==> !is_horizontal_at(last + offset, sector_size),
        !horizontal ==> !is_horizontal_at(offset, sector_size) && !is_horizontal_at(
            last + sector_size + offset,
            sector_size,
        ),
{
    let d = sector_size + 1;
    lemma_fundamental_div_mod(offset, d);
    lemma_mod_pos_bound(offset, d);
    let a = offset / d;
    let m = offset % d;
    if horizontal {
        assert(last + offset == d * a + sector_size);
        vstd::arithmetic::div_mod::lemma_mod_multiples_vanish(a, sector_size, d);
        vstd::arithmetic::div_mod::lemma_small_mod(sector_size as nat, d as nat);
    } else {
        assert(last + sector_size + offset == d * (a + 1) + sector_size) by (nonlinear_arith)
            requires
                offset == d * a + sector_size,
                last == 1,
                d == sector_size + 1,
        ;
        vstd::arithmetic::div_mod::lemma_mod_multiples_vanish(a + 1, sector_size, d);
        vstd::arithmetic::div_mod::lemma_small_mod(sector_size as nat, d as nat);
    }
}

/// Position `x` below `limit`, a whole number of plain blocks of
/// `sector_size`, has a block index below `limit / sector_size`.
pub proof fn lemma_block_below(x: int, limit: int, sector_size: int)
    requires
        0 <= x < limit,
        1 <= sector_size,
        limit % sector_size == 0,
    ensures
        0 <= x / sector_size < limit / sector_size,
{
    let d = sector_size;
    lemma_fundamental_div_mod(x, d);
    lemma_fundamental_div_mod(limit, d);
    lemma_mod_pos_bound(x, d);
    vstd::arithmetic::div_mod::lemma_div_pos_is_pos(x, d);
    let a = x / d;
    let b = limit / d;
    assert(a < b) by (nonlinear_arith)
        requires
            x == d * a + x % d,
            0 <= x % d < d,
            limit == d * b,
            x < limit,
            d >= 1,
    ;
}

/// The shuttle: the partition's current shift and the direction it moves in.
pub struct Shuttle {
    pub offset: usize,
    pub shuttle_right: bool,
    pub max_shift: usize,
}

impl Shuttle {
    /// The shift stays within `[0, max_shift]` and can move on in its direction.
    pub open spec fn wf(&self) -> bool {
        &&& 1 <= self.max_shift
        &&& self.offset <= self.max_shift
        &&& self.shuttle_right ==> self.offset < self.max_shift
        &&& !self.shuttle_right ==> self.offset > 0
    }

    pub fn new(max_shift: usize) -> (r: Shuttle)
        requires
            1 <= max_shift,
        ensures
            r.wf(),
            r.offset == 0,
            r.shuttle_right,
            r.max_shift == max_shift,
    {
        Shuttle { offset: 0, shuttle_right: true, max_shift }
    }

    /// One step of the sweep, reversing at either end.
    pub fn step(&mut self)
        requires
            old(self).wf(),
        ensures
            final(self).wf(),
            final(self).max_shift == old(self).max_shift,
            old(self).shuttle_right ==> final(self).offset == old(self).offset + 1,
            !old(self).shuttle_right ==> final(self).offset == old(self).offset - 1,
            final(self).shuttle_right == (if final(self).offset == 0 || final(self).offset
                == final(self).max_shift {
                !old(self).shuttle_right
            } else {
                old(self).shuttle_right
            }),
    {
        if self.shuttle_right {
            self.offset += 1;
        } else {
            self.offset -= 1;
        }
        if self.offset == 0 || self.offset == self.max_shift {
            self.shuttle_right = !self.shuttle_right;
        }
    }
}

} // verus!
