//! Arithmetic behind the ring: powers of two, masks, and positions that wrap around.

use vstd::prelude::*;

verus! {

/// Whether `x` is a power of two.
pub open spec fn is_power_of_two(x: int) -> bool {
    exists|k: nat| #[trigger] vstd::arithmetic::power2::pow2(k) == x
}

/// The index of slot `offset` of cache line `line`, where lines are counted
/// from the first one ever written and wrap around a ring of `lines` lines of
/// `n` slots each.
pub open spec fn slot_index(line: int, offset: int, lines: int, n: int) -> int {
    (line % lines) * n + offset
}

/// How far `hi` lies ahead of `lo` on a ring of `size` slots.
pub open spec fn ring_distance(lo: int, hi: int, size: int) -> int {
    (hi - lo) % size
}

/// The least of three numbers.
pub open spec fn least(a: int, b: int, c: int) -> int {
    if a <= b && a <= c {
        a
    } else if b <= c {
        b
    } else {
        c
    }
}

/// Every power of two is one, and nothing else is.
pub proof fn law_power_of_two(x: int)
    ensures
        is_power_of_two(x) <==> exists|k: nat| #[trigger] vstd::arithmetic::power2::pow2(k) == x,
{
}

/// The least of three numbers is one of them, and none of them is less.
pub proof fn law_least(a: int, b: int, c: int)
    ensures
        least(a, b, c) <= a,
        least(a, b, c) <= b,
        least(a, b, c) <= c,
        least(a, b, c) == a || least(a, b, c) == b || least(a, b, c) == c,
{
}

/// Going on from `lo` by the distance to `hi` leads to `hi`, in less than a lap.
pub proof fn law_ring_distance(lo: int, hi: int, size: int)
    requires
        0 < size,
    ensures
        0 <= ring_distance(lo, hi, size) < size,
        (lo + ring_distance(lo, hi, size)) % size == hi % size,
{
    lemma_mod_shift(hi - lo, lo, size);
}

/// The number of values of `usize` is a power of two.
proof fn lemma_usize_modulus()
    ensures
        vstd::arithmetic::power2::pow2(usize::BITS as nat) == usize::MAX + 1,
{
    vstd::arithmetic::power2::lemma2_to64();
    vstd::arithmetic::power2::lemma2_to64_rest();
}

/// A power of two that fits in `usize` has an exponent below the word size.
proof fn lemma_exponent_bound(k: nat, m: usize)
    requires
        vstd::arithmetic::power2::pow2(k) == m,
    ensures
        k < usize::BITS,
        m > 0,
{
    vstd::arithmetic::power2::lemma_pow2_pos(k);
    lemma_usize_modulus();
    if k > usize::BITS {
        vstd::arithmetic::power2::lemma_pow2_strictly_increases(usize::BITS as nat, k);
    }
}

/// Masking with one less than a power of two is taking the remainder.
pub proof fn lemma_mask_is_mod(x: usize, m: usize)
    requires
        is_power_of_two(m as int),
    ensures
        m > 0,
        x & ((m - 1) as usize) == x % m,
{
    let k = choose|k: nat| #[trigger] vstd::arithmetic::power2::pow2(k) == m as int;
    lemma_exponent_bound(k, m);
    vstd::bits::lemma_usize_low_bits_mask_is_mod(x, k);
}

/// Twice a power of two is at most one more than `usize` can hold.
pub proof fn lemma_twice_fits(m: usize)
    requires
        is_power_of_two(m as int),
    ensures
        m + m <= usize::MAX + 1,
{
    let k = choose|k: nat| #[trigger] vstd::arithmetic::power2::pow2(k) == m as int;
    lemma_exponent_bound(k, m);
    lemma_usize_modulus();
    vstd::arithmetic::power2::lemma_pow2_unfold(k + 1);
    if k + 1 < usize::BITS {
        vstd::arithmetic::power2::lemma_pow2_strictly_increases(k + 1, usize::BITS as nat);
    }
}

/// Subtracting with wrap-around and masking gives the distance on the ring.
pub proof fn lemma_masked_difference(hi: usize, lo: usize, m: usize)
    requires
        is_power_of_two(m as int),
    ensures
        m > 0,
        hi.wrapping_sub(lo) & ((m - 1) as usize) == ring_distance(lo as int, hi as int, m as int),
{
    lemma_mask_is_mod(hi.wrapping_sub(lo), m);
    let k = choose|k: nat| #[trigger] vstd::arithmetic::power2::pow2(k) == m as int;
    lemma_exponent_bound(k, m);
    lemma_usize_modulus();
    if hi < lo {
        let rest = (usize::BITS - k) as nat;
        let d = hi - lo;
        vstd::arithmetic::power2::lemma_pow2_adds(k, rest);
        vstd::arithmetic::div_mod::lemma_mod_multiples_vanish(
            vstd::arithmetic::power2::pow2(rest) as int,
            d,
            m as int,
        );
    }
}

/// The quotient of two powers of two is a power of two, and divides evenly.
pub proof fn lemma_power_of_two_quotient(a: int, b: int)
    requires
        is_power_of_two(a),
        is_power_of_two(b),
        b <= a,
    ensures
        b > 0,
        is_power_of_two(a / b),
        a == (a / b) * b,
{
    let i = choose|k: nat| #[trigger] vstd::arithmetic::power2::pow2(k) == a;
    let j = choose|k: nat| #[trigger] vstd::arithmetic::power2::pow2(k) == b;
    vstd::arithmetic::power2::lemma_pow2_pos(j);
    if i < j {
        vstd::arithmetic::power2::lemma_pow2_strictly_increases(i, j);
    }
    let e = (i - j) as nat;
    let q = vstd::arithmetic::power2::pow2(e) as int;
    vstd::arithmetic::power2::lemma_pow2_adds(e, j);
    vstd::arithmetic::div_mod::lemma_fundamental_div_mod_converse(a, b, q, 0);
}

/// Two numbers less than `m` apart that leave the same remainder are equal.
pub proof fn lemma_same_remainder(a: int, b: int, m: int)
    requires
        0 < m,
        a - b < m,
        b - a < m,
        a % m == b % m,
    ensures
        a == b,
{
    vstd::arithmetic::div_mod::lemma_fundamental_div_mod(a, m);
    vstd::arithmetic::div_mod::lemma_fundamental_div_mod(b, m);
    let p = a / m;
    let q = b / m;
    assert(a - b == m * (p - q)) by (nonlinear_arith)
        requires
            a == m * p + a % m,
            b == m * q + b % m,
            a % m == b % m,
    ;
    assert(p == q) by (nonlinear_arith)
        requires
            0 < m,
            -m < m * (p - q) < m,
    ;
}

/// Adding a number before or after taking a remainder makes no difference.
pub proof fn lemma_mod_shift(a: int, d: int, m: int)
    requires
        0 < m,
    ensures
        (a % m + d) % m == (a + d) % m,
{
    vstd::arithmetic::div_mod::lemma_fundamental_div_mod(a, m);
    vstd::arithmetic::div_mod::lemma_mod_multiples_vanish(a / m, a % m + d, m);
}

/// A position less than two laps on wraps around once at most.
pub proof fn lemma_wrap_once(position: int, size: int)
    requires
        0 <= position < 2 * size,
    ensures
        position % size == if position < size {
            position
        } else {
            position - size
        },
{
    if position < size {
        vstd::arithmetic::div_mod::lemma_small_mod(position as nat, size as nat);
    } else {
        vstd::arithmetic::div_mod::lemma_fundamental_div_mod_converse(
            position,
            size,
            1,
            position - size,
        );
    }
}

/// Slots of lines less than one lap apart have different indices, and every
/// index lies on the ring.
pub proof fn lemma_slot_index_injective(l1: int, k1: int, l2: int, k2: int, lines: int, n: int)
    requires
        0 < lines,
        0 < n,
        0 <= k1 < n,
        0 <= k2 < n,
        l1 - l2 < lines,
        l2 - l1 < lines,
    ensures
        0 <= slot_index(l1, k1, lines, n) < lines * n,
        slot_index(l1, k1, lines, n) == slot_index(l2, k2, lines, n) ==> l1 == l2 && k1 == k2,
{
    lemma_slot_index_bound(l1, k1, lines, n);
    if slot_index(l1, k1, lines, n) == slot_index(l2, k2, lines, n) {
        let a = l1 % lines;
        let b = l2 % lines;
        vstd::arithmetic::div_mod::lemma_fundamental_div_mod_converse(
            slot_index(l1, k1, lines, n),
            n,
            a,
            k1,
        );
        vstd::arithmetic::div_mod::lemma_fundamental_div_mod_converse(
            slot_index(l2, k2, lines, n),
            n,
            b,
            k2,
        );
        lemma_same_remainder(l1, l2, lines);
    }
}

/// The index of a slot lies on the ring.
pub proof fn lemma_slot_index_bound(line: int, k: int, lines: int, n: int)
    requires
        0 < lines,
        0 < n,
        0 <= k < n,
    ensures
        0 <= slot_index(line, k, lines, n) < lines * n,
{
    let a = line % lines;
    assert(0 <= a * n + k < lines * n) by (nonlinear_arith)
        requires
            0 <= a < lines,
            0 <= k < n,
    ;
}

/// Walking `j` slots on from the start of `line` on the ring reaches slot
/// `j % n` of the line `j / n` further on.
pub proof fn lemma_walk(line: int, j: int, lines: int, n: int)
    requires
        0 < lines,
        0 < n,
        0 <= j,
    ensures
        ((line % lines) * n + j) % (lines * n) == slot_index(line + j / n, j % n, lines, n),
{
    let a = line % lines;
    let q = j / n;
    let k = j % n;
    let target = (line + q) % lines;
    vstd::arithmetic::div_mod::lemma_fundamental_div_mod(j, n);
    lemma_mod_shift(line, q, lines);
    vstd::arithmetic::div_mod::lemma_fundamental_div_mod(a + q, lines);
    let laps = (a + q) / lines;
    assert(a * n + j == laps * (lines * n) + (target * n + k)) by (nonlinear_arith)
        requires
            j == n * q + k,
            a + q == lines * laps + target,
    ;
    lemma_slot_index_bound(line + q, k, lines, n);
    vstd::arithmetic::mul::lemma_mul_strictly_positive(lines, n);
    vstd::arithmetic::div_mod::lemma_fundamental_div_mod_converse(
        a * n + j,
        lines * n,
        laps,
        target * n + k,
    );
}

/// A distance on the ring does not depend on the lap that its ends are in.
pub proof fn lemma_ring_distance_wraps(lo: int, hi: int, size: int)
    requires
        0 < size,
    ensures
        ring_distance(lo % size, hi % size, size) == ring_distance(lo, hi, size),
{
    vstd::arithmetic::div_mod::lemma_sub_mod_noop(hi, lo, size);
}

/// The distance from offset `o` of line `w` to a slot, on a ring of `lines`
/// lines, is the one between the same places before they wrap around.
pub proof fn lemma_slot_distance(l: int, k: int, w: int, o: int, lines: int, n: int)
    requires
        0 < lines,
        0 < n,
    ensures
        ring_distance((w % lines) * n + o, slot_index(l, k, lines, n), lines * n) == ((l * n + k)
            - (w * n + o)) % (lines * n),
{
    let size = lines * n;
    vstd::arithmetic::mul::lemma_mul_strictly_positive(lines, n);
    vstd::arithmetic::div_mod::lemma_fundamental_div_mod(l, lines);
    vstd::arithmetic::div_mod::lemma_fundamental_div_mod(w, lines);
    let d = ((l % lines) * n + k) - ((w % lines) * n + o);
    let laps = l / lines - w / lines;
    assert(size * laps + d == (l * n + k) - (w * n + o)) by (nonlinear_arith)
        requires
            size == lines * n,
            laps == l / lines - w / lines,
            l == lines * (l / lines) + l % lines,
            w == lines * (w / lines) + w % lines,
            d == ((l % lines) * n + k) - ((w % lines) * n + o),
    ;
    vstd::arithmetic::div_mod::lemma_mod_multiples_vanish(laps, d, size);
}

/// The slot `i` places after `start` is `i` places away from it.
pub proof fn lemma_ring_distance_of_step(start: int, i: int, size: int)
    requires
        0 <= i < size,
    ensures
        ring_distance(start, (start + i) % size, size) == i,
{
    vstd::arithmetic::div_mod::lemma_sub_mod_noop(start + i, start, size);
    vstd::arithmetic::div_mod::lemma_mod_twice(start + i, size);
    vstd::arithmetic::div_mod::lemma_sub_mod_noop((start + i) % size, start, size);
    vstd::arithmetic::div_mod::lemma_small_mod(i as nat, size as nat);
}

/// Only the slot `i` places after `start` is `i` places away from it.
pub proof fn lemma_step_of_ring_distance(start: int, j: int, size: int)
    requires
        0 <= j < size,
    ensures
        (start + ring_distance(start, j, size)) % size == j,
        0 <= ring_distance(start, j, size) < size,
{
    lemma_mod_shift(j - start, start, size);
    vstd::arithmetic::div_mod::lemma_small_mod(j as nat, size as nat);
}

/// The division of `q * n + k` by `n`.
pub proof fn lemma_line_and_offset(q: int, k: int, n: int)
    requires
        0 < n,
        0 <= k < n,
    ensures
        (q * n + k) / n == q,
        (q * n + k) % n == k,
{
    vstd::arithmetic::div_mod::lemma_fundamental_div_mod_converse(q * n + k, n, q, k);
}

} // verus!
