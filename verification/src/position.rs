//! Positions and cells: how the ever-growing counters of a ring map onto its
//! cells.
//!
//! A ring of `n` cells is driven by counters that only move forward and wrap at
//! the end of `usize`. Because `n` is a power of two it divides the counter's
//! range, so a position keeps its cell across the wrap and the cell is found
//! with a mask.

use vstd::prelude::*;
use vstd::arithmetic::div_mod::{
    lemma_add_mod_noop,
    lemma_fundamental_div_mod,
    lemma_mod_mod,
    lemma_mod_multiples_vanish,
    lemma_small_mod,
    lemma_sub_mod_noop,
};
use vstd::arithmetic::power::pow;
use vstd::arithmetic::power2::{
    is_pow2,
    is_pow2_equiv,
    is_pow2_exists,
    lemma_pow2,
    lemma_pow2_adds,
    lemma_pow2_pos,
    lemma_pow2_strictly_increases,
    pow2,
};
use vstd::bits::{lemma_usize_low_bits_mask_is_mod, low_bits_mask};
use vstd::layout::unsigned_int_max_values;

verus! {

/// The number of values a counter takes before it wraps.
pub open spec fn counter_range() -> int {
    usize::MAX as int + 1
}

/// A capacity that a ring accepts: a power of two, hence at least one.
pub open spec fn valid_capacity(n: usize) -> bool {
    is_pow2(n as int)
}

/// The cell that position `pos` falls in, in a ring of `n` cells.
pub open spec fn slot_of(pos: usize, n: usize) -> int
    recommends
        n > 0,
{
    pos as int % n as int
}

/// How far `to` lies ahead of `from`, counted across the wrap.
pub open spec fn distance(from: usize, to: usize) -> int {
    if to >= from {
        to - from
    } else {
        to - from + counter_range()
    }
}

/// The position `k` steps after `pos`, or `-k` steps before it, counted across
/// the wrap.
pub open spec fn advance(pos: usize, k: int) -> usize {
    ((pos + k) % counter_range()) as usize
}

/// The cell `j` steps after cell `base`, around a ring of `n` cells.
pub open spec fn cell(base: int, j: int, n: int) -> int
    recommends
        n > 0,
{
    (base + j) % n
}

/// How many steps cell `slot` lies after cell `base`, around a ring of `n` cells.
pub open spec fn offset_of(slot: int, base: int, n: int) -> int
    recommends
        n > 0,
{
    (slot - base) % n
}

/// Whether `n` is a capacity that a ring accepts.
pub fn is_valid_capacity(n: usize) -> (valid: bool)
    ensures
        valid == valid_capacity(n),
{
    if n == 0 {
        proof {
            reveal(is_pow2);
        }
        false
    } else {
        proof {
            lemma_single_bit_is_capacity(n);
        }
        n & (n - 1) == 0
    }
}

/// Whether `head` is a whole lap of `n` cells ahead of `tail`, so that every
/// cell is taken.
pub fn is_full(tail: usize, head: usize, n: usize) -> (full: bool)
    ensures
        full == (distance(tail, head) == n),
{
    head.wrapping_sub(tail) == n
}

/// Whether `head` has not moved past `tail`, so that no cell is taken.
pub fn is_empty(tail: usize, head: usize) -> (empty: bool)
    ensures
        empty == (distance(tail, head) == 0),
{
    tail == head
}

/// The cell of position `pos` in a ring of `n` cells, by mask.
pub fn mask(pos: usize, n: usize) -> (slot: usize)
    requires
        valid_capacity(n),
    ensures
        slot == slot_of(pos, n),
        slot < n,
{
    proof {
        lemma_mask_is_slot(pos, n);
    }
    pos & (n - 1)
}

/// A positive number shares no bit with its predecessor exactly when it is a
/// power of two.
proof fn lemma_single_bit_is_capacity(n: usize)
    requires
        n > 0,
    ensures
        (n & ((n - 1) as usize) == 0) == valid_capacity(n),
    decreases n,
{
    reveal(is_pow2);
    if n == 1 {
        assert(1usize & 0usize == 0) by (bit_vector);
    } else {
        let half: usize = n / 2;
        let below: usize = (n - 1) as usize;
        let below_half: usize = (half - 1) as usize;
        lemma_single_bit_is_capacity(half);
        assert(n > 1 && half == n / 2 && below == (n - 1) as usize && below_half == (half
            - 1) as usize ==> ((n & below == 0) <==> (n % 2 == 0 && half & below_half == 0)))
            by (bit_vector);
    }
}

/// A valid capacity is not zero.
pub proof fn lemma_capacity_positive(n: usize)
    requires
        valid_capacity(n),
    ensures
        n > 0,
{
    reveal(is_pow2);
}

/// A valid capacity is two to some power below the counter's width.
pub proof fn lemma_capacity_exponent(n: usize) -> (k: nat)
    requires
        valid_capacity(n),
    ensures
        n == pow2(k),
        k < usize::BITS,
{
    is_pow2_equiv(n as int);
    assert(is_pow2_exists(n as int));
    let k = choose|i: nat| pow(2, i) == n as int;
    lemma_pow2(k);
    unsigned_int_max_values();
    if k > usize::BITS {
        lemma_pow2_strictly_increases(usize::BITS as nat, k);
    }
    k
}

/// A valid capacity divides the counter's range.
pub proof fn lemma_capacity_divides_range(n: usize) -> (laps: int)
    requires
        valid_capacity(n),
    ensures
        n > 0,
        laps > 0,
        counter_range() == n * laps,
{
    let k = lemma_capacity_exponent(n);
    let rest = (usize::BITS - k) as nat;
    unsigned_int_max_values();
    lemma_capacity_positive(n);
    lemma_pow2_adds(k, rest);
    lemma_pow2_pos(rest);
    pow2(rest) as int
}

/// A valid capacity fits twice into the counter's range.
pub proof fn lemma_capacity_half_range(n: usize)
    requires
        valid_capacity(n),
    ensures
        2 * n <= counter_range(),
{
    let laps = lemma_capacity_divides_range(n);
    assert(laps >= 2 ==> n * laps >= 2 * n) by (nonlinear_arith)
        requires
            n > 0,
    ;
    assert(laps == 1 ==> n * laps == n) by (nonlinear_arith);
}

/// Masking with a valid capacity less one is the remainder by that capacity.
pub proof fn lemma_mask_is_slot(pos: usize, n: usize)
    requires
        valid_capacity(n),
    ensures
        pos & ((n - 1) as usize) == slot_of(pos, n),
        0 <= slot_of(pos, n) < n,
{
    let k = lemma_capacity_exponent(n);
    lemma_capacity_positive(n);
    lemma_usize_low_bits_mask_is_mod(pos, k);
    assert(low_bits_mask(k) == n - 1);
}

/// Remainders of numbers at most one lap away from `0..n`.
pub proof fn lemma_mod_near(x: int, n: int)
    requires
        n > 0,
        -n <= x < 2 * n,
    ensures
        x % n == if x < 0 {
            x + n
        } else if x < n {
            x
        } else {
            x - n
        },
{
    if x < 0 {
        lemma_small_mod((x + n) as nat, n as nat);
        lemma_mod_multiples_vanish(1, x, n);
    } else if x < n {
        lemma_small_mod(x as nat, n as nat);
    } else {
        lemma_small_mod((x - n) as nat, n as nat);
        lemma_mod_multiples_vanish(-1, x, n);
    }
}

/// Stepping from `from` by the distance to `to` arrives at `to`.
pub proof fn lemma_advance_distance(from: usize, to: usize)
    ensures
        0 <= distance(from, to) < counter_range(),
        advance(from, distance(from, to)) == to,
        distance(from, from) == 0,
{
    lemma_mod_near(from + distance(from, to), counter_range());
}

/// Two runs of steps are one run of their sum.
pub proof fn lemma_advance_twice(pos: usize, a: int, b: int)
    ensures
        advance(advance(pos, a), b) == advance(pos, a + b),
        advance(pos, 0) == pos,
{
    let range = counter_range();
    lemma_add_mod_noop(pos + a, b, range);
    lemma_add_mod_noop((pos + a) % range, b, range);
    lemma_fundamental_div_mod(pos + a, range);
    lemma_fundamental_div_mod(pos + a + b, range);
    lemma_small_mod(((pos + a) % range) as nat, range as nat);
    lemma_small_mod(pos as nat, range as nat);
}

/// Between two positions that are `a` and `b` steps from the same one, with
/// less than a lap between them, the distance is the difference of the steps.
pub proof fn lemma_advance_apart(pos: usize, a: int, b: int)
    requires
        -counter_range() < b - a < counter_range(),
    ensures
        distance(advance(pos, a), advance(pos, b)) == if b >= a {
            b - a
        } else {
            b - a + counter_range()
        },
        advance(pos, a) == advance(pos, b) <==> a == b,
{
    let range = counter_range();
    let from = advance(pos, a);
    let to = advance(pos, b);
    lemma_fundamental_div_mod(pos + a, range);
    lemma_fundamental_div_mod(pos + b, range);
    lemma_sub_mod_noop(pos + b, pos + a, range);
    lemma_mod_near(to - from, range);
    lemma_mod_near(b - a, range);
}

/// A wrapping addition is that many steps forward.
pub proof fn lemma_wrapping_add_advances(pos: usize, k: usize)
    ensures
        pos.wrapping_add(k) == advance(pos, k as int),
{
    lemma_mod_near(pos + k, counter_range());
}

/// A wrapping step of the far end lengthens a distance short of a full lap by one.
pub proof fn lemma_step_to(from: usize, to: usize)
    requires
        distance(from, to) < usize::MAX,
    ensures
        to.wrapping_add(1) == advance(to, 1),
        distance(from, to.wrapping_add(1)) == distance(from, to) + 1,
{
    lemma_mod_near(to + 1, counter_range());
}

/// A wrapping step of the near end shortens a distance that is not zero by one.
pub proof fn lemma_step_from(from: usize, to: usize)
    requires
        from != to,
    ensures
        from.wrapping_add(1) == advance(from, 1),
        distance(from.wrapping_add(1), to) == distance(from, to) - 1,
{
    lemma_mod_near(from + 1, counter_range());
}

/// Stepping by `k` moves the cell by `k`, around the ring: wrapping the counter
/// does not change the cell.
pub proof fn lemma_advance_slot(pos: usize, k: int, n: usize)
    requires
        valid_capacity(n),
    ensures
        slot_of(advance(pos, k), n) == cell(slot_of(pos, n), k, n as int),
{
    let cells = n as int;
    let laps = lemma_capacity_divides_range(n);
    lemma_mod_mod(pos + k, cells, laps);
    lemma_add_mod_noop(pos as int, k, cells);
    lemma_add_mod_noop(pos as int % cells, k, cells);
    lemma_fundamental_div_mod(pos as int, cells);
    lemma_small_mod((pos as int % cells) as nat, cells as nat);
}

/// Stepping `j` cells forward and measuring back gives `j`; measuring the way
/// to a cell and stepping it forward arrives there.
pub proof fn lemma_cell_offset(base: int, j: int, n: int)
    requires
        0 <= base < n,
        0 <= j < n,
    ensures
        0 <= cell(base, j, n) < n,
        offset_of(cell(base, j, n), base, n) == j,
        0 <= offset_of(j, base, n) < n,
        cell(base, offset_of(j, base, n), n) == j,
{
    lemma_mod_near(base + j, n);
    lemma_mod_near(cell(base, j, n) - base, n);
    lemma_mod_near(j - base, n);
    lemma_mod_near(base + offset_of(j, base, n), n);
}

/// Moving the base one cell forward shortens every way by one step, but for
/// the old base itself, which is then a full lap less one step away.
pub proof fn lemma_next_base(base: int, j: int, n: int)
    requires
        0 <= base < n,
        0 <= j < n,
    ensures
        0 <= cell(base, 1, n) < n,
        j + 1 < n ==> cell(cell(base, 1, n), j, n) == cell(base, j + 1, n),
        offset_of(j, cell(base, 1, n), n) == if j == base {
            n - 1
        } else {
            offset_of(j, base, n) - 1
        },
{
    lemma_mod_near(base + 1, n);
    lemma_mod_near(cell(base, 1, n) + j, n);
    lemma_mod_near(base + j + 1, n);
    lemma_mod_near(j - cell(base, 1, n), n);
    lemma_mod_near(j - base, n);
}

} // verus!
