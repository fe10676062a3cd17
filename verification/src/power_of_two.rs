//! Powers of two, and the facts about masks and remainders that the tables
//! rely on when their sizes are powers of two.

use vstd::prelude::*;
use vstd::arithmetic::power2::{pow2, lemma_pow2_pos, lemma_pow2_adds, lemma_pow2_strictly_increases, lemma2_to64};
use vstd::arithmetic::div_mod::{lemma_mod_mod, lemma_add_mod_noop};
use vstd::bits::{lemma_usize_low_bits_mask_is_mod, low_bits_mask};

verus! {

/// `n` is `2^k` for some natural `k`.
pub open spec fn power_of_two(n: int) -> bool {
    exists|k: nat| #[trigger] pow2(k) == n
}

/// The number of values a `usize` can hold.
pub open spec fn usize_range() -> int {
    usize::MAX + 1
}

proof fn lemma_usize_range_is_pow2()
    ensures
        usize_range() == pow2(usize::BITS as nat),
        usize::BITS == 32 || usize::BITS == 64,
{
    lemma2_to64();
}

/// A power of two that fits in a `usize` has an exponent below the width of `usize`.
pub proof fn lemma_pow2_exponent_in_usize(n: int) -> (k: nat)
    requires
        power_of_two(n),
        n <= usize::MAX,
    ensures
        pow2(k) == n,
        k < usize::BITS,
{
    let k = choose|k: nat| #[trigger] pow2(k) == n;
    lemma_usize_range_is_pow2();
    if k >= usize::BITS {
        lemma_pow2_adds(usize::BITS as nat, (k - usize::BITS) as nat);
        lemma_pow2_pos((k - usize::BITS) as nat);
        assert(pow2(k) >= pow2(usize::BITS as nat)) by (nonlinear_arith)
            requires pow2(k) == pow2(usize::BITS as nat) * pow2((k - usize::BITS) as nat),
                pow2((k - usize::BITS) as nat) >= 1, pow2(usize::BITS as nat) >= 0;
    }
    k
}

/// Masking with `n - 1` takes the remainder by a power of two `n`.
pub proof fn lemma_mask_is_mod(x: usize, n: usize)
    requires
        power_of_two(n as int),
    ensures
        n > 0,
        x & ((n - 1) as usize) == x % n,
{
    let k = lemma_pow2_exponent_in_usize(n as int);
    lemma_pow2_pos(k);
    lemma_usize_low_bits_mask_is_mod(x, k);
    assert(low_bits_mask(k) == n - 1);
}

/// A power of two that fits in a `usize` divides the number of `usize` values.
pub proof fn lemma_pow2_divides_usize_range(n: int)
    requires
        power_of_two(n),
        n <= usize::MAX,
    ensures
        n > 0,
        usize_range() % n == 0,
        usize_range() == n * (usize_range() / n),
{
    let k = lemma_pow2_exponent_in_usize(n);
    lemma_usize_range_is_pow2();
    lemma_pow2_pos(k);
    lemma_pow2_adds(k, (usize::BITS - k) as nat);
    let q = pow2((usize::BITS - k) as nat) as int;
    assert(usize_range() == n * q);
    vstd::arithmetic::div_mod::lemma_mod_multiples_basic(q, n);
    assert(n * q == q * n) by (nonlinear_arith);
    vstd::arithmetic::div_mod::lemma_div_multiples_vanish(q, n);
}

/// A power of two is divisible by every power of two not above it, and the
/// quotient is again a power of two.
pub proof fn lemma_pow2_div(a: int, b: int)
    requires
        power_of_two(a),
        power_of_two(b),
        a >= b,
    ensures
        b > 0,
        a % b == 0,
        power_of_two(a / b),
        a == (a / b) * b,
{
    let i = choose|k: nat| #[trigger] pow2(k) == a;
    let j = choose|k: nat| #[trigger] pow2(k) == b;
    lemma_pow2_pos(j);
    if i < j {
        lemma_pow2_strictly_increases(i, j);
    }
    assert(i >= j);
    lemma_pow2_adds((i - j) as nat, j);
    let q = pow2((i - j) as nat) as int;
    assert(a == q * b);
    assert(q * b == b * q) by (nonlinear_arith);
    vstd::arithmetic::div_mod::lemma_mod_multiples_basic(q, b);
    vstd::arithmetic::div_mod::lemma_div_multiples_vanish(q, b);
    assert(pow2((i - j) as nat) == a / b);
}

/// An odd number has an inverse modulo any power of two: `s * u` is one
/// more than a multiple of `2^e`.
pub proof fn lemma_odd_inverse(s: int, e: nat) -> (r: (int, int))
    requires
        s > 0,
        s % 2 == 1,
    ensures
        s * r.0 == 1 + r.1 * pow2(e),
    decreases e,
{
    if e == 0 {
        assert(pow2(0) == 1) by {
            lemma2_to64();
        }
        assert(s * 1 == 1 + (s - 1) * 1) by (nonlinear_arith);
        (1, s - 1)
    } else {
        let (u, m) = lemma_odd_inverse(s, (e - 1) as nat);
        let p = pow2((e - 1) as nat) as int;
        vstd::arithmetic::power2::lemma_pow2_unfold(e);
        if m % 2 == 0 {
            let m2 = m / 2;
            assert(s * u == 1 + m2 * (2 * p)) by (nonlinear_arith)
                requires
                    s * u == 1 + m * p,
                    m == 2 * m2;
            (u, m2)
        } else {
            let t = (m + s) / 2;
            assert(s * (u + p) == 1 + t * (2 * p)) by (nonlinear_arith)
                requires
                    s * u == 1 + m * p,
                    m + s == 2 * t;
            (u + p, t)
        }
    }
}

/// Adding a multiple of `n` leaves the remainder by `n` unchanged.
pub proof fn lemma_mod_shift(a: int, t: int, n: int)
    requires
        n > 0,
    ensures
        (a + t * n) % n == a % n,
{
    vstd::arithmetic::div_mod::lemma_mod_multiples_vanish(t, a, n);
    assert(n * t + a == a + t * n) by (nonlinear_arith);
}

/// Reducing modulo the `usize` range first does not change a remainder by a
/// power of two that fits in a `usize`.
pub proof fn lemma_mod_usize_range_then_mod(x: int, n: int)
    requires
        power_of_two(n),
        n <= usize::MAX,
    ensures
        n > 0,
        (x % usize_range()) % n == x % n,
{
    lemma_pow2_divides_usize_range(n);
    lemma_mod_mod(x, n, usize_range() / n);
}

} // verus!

verus! {

/// The smallest power of two that is at least `x` (1 for 0 and 1).
pub open spec fn next_pow2(x: nat) -> nat
    decreases x,
{
    if x <= 1 {
        1
    } else {
        2 * next_pow2(((x + 1) / 2) as nat)
    }
}

/// `next_pow2` gives a power of two, at least its argument, and less than
/// twice it when the argument is at least one.
pub proof fn lemma_next_pow2(x: nat)
    ensures
        power_of_two(next_pow2(x) as int),
        next_pow2(x) >= x,
        next_pow2(x) >= 1,
        x >= 1 ==> next_pow2(x) < 2 * x,
    decreases x,
{
    if x <= 1 {
        vstd::arithmetic::power2::lemma2_to64();
        assert(pow2(0) == 1);
    } else {
        let y = ((x + 1) / 2) as nat;
        lemma_next_pow2(y);
        let k = choose|k: nat| #[trigger] pow2(k) == next_pow2(y);
        vstd::arithmetic::power2::lemma_pow2_unfold(k + 1);
        assert(pow2(k + 1) == next_pow2(x));
    }
}

/// Computes `next_pow2(x)`: the smallest power of two that is at least `x`.
pub fn next_power_of_two(x: usize) -> (r: usize)
    requires
        next_pow2(x as nat) <= usize::MAX,
    ensures
        r == next_pow2(x as nat),
    decreases x,
{
    if x <= 1 {
        1
    } else {
        let half = x / 2 + x % 2;
        assert(half == (x + 1) / 2);
        proof { lemma_next_pow2(half as nat); }
        2 * next_power_of_two(half)
    }
}

} // verus!
