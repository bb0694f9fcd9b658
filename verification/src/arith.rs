//! Alignment arithmetic: rounding an address up to a multiple of a
//! power-of-two divisor, and the divisibility facts the allocator needs.

use vstd::prelude::*;
use vstd::arithmetic::div_mod::{lemma_fundamental_div_mod, lemma_fundamental_div_mod_converse, lemma_mod_bound};
use vstd::arithmetic::mul::lemma_mul_is_commutative;

verus! {

/// `n` rounded up to the next multiple of `d` (for `d >= 1`).
pub open spec fn spec_round_up(n: int, d: int) -> int {
    ((n + d - 1) / d) * d
}

/// `n` is a positive power of two.
pub open spec fn is_pow2(n: int) -> bool
    decreases n,
{
    if n <= 0 {
        false
    } else if n == 1 {
        true
    } else {
        n % 2 == 0 && is_pow2(n / 2)
    }
}

/// The larger of two integers.
pub open spec fn max_int(a: int, b: int) -> int {
    if a >= b {
        a
    } else {
        b
    }
}

/// Rounding up lands on a multiple of the divisor, no more than `d - 1` away.
pub proof fn lemma_round_up(n: int, d: int)
    requires
        n >= 0,
        d >= 1,
    ensures
        spec_round_up(n, d) % d == 0,
        n <= spec_round_up(n, d) < n + d,
        n % d == 0 ==> spec_round_up(n, d) == n,
        spec_round_up(n, d) == (n + d - 1) - (n + d - 1) % d,
{
    let m = n + d - 1;
    lemma_fundamental_div_mod(m, d);
    lemma_mod_bound(m, d);
    let q = m / d;
    lemma_mul_is_commutative(d, q);
    assert(spec_round_up(n, d) == m - m % d);
    assert((q * d) % d == 0) by {
        lemma_fundamental_div_mod_converse(q * d, d, q, 0);
    }
    if n % d == 0 {
        lemma_fundamental_div_mod(n, d);
        let k = n / d;
        assert(m == d * k + (d - 1));
        lemma_fundamental_div_mod_converse(m, d, k, d - 1);
        lemma_mul_is_commutative(d, k);
        assert(spec_round_up(n, d) == n);
    }
}

/// A multiple of `b` is a multiple of every divisor of `b`.
pub proof fn lemma_mod_zero_transitive(x: int, a: int, b: int)
    requires
        a >= 1,
        b >= 1,
        x >= 0,
        x % b == 0,
        b % a == 0,
    ensures
        x % a == 0,
{
    lemma_fundamental_div_mod(x, b);
    lemma_fundamental_div_mod(b, a);
    let k = x / b;
    let m = b / a;
    assert(x == (a * m) * k);
    assert((a * m) * k == a * (m * k)) by (nonlinear_arith);
    lemma_fundamental_div_mod_converse(x, a, m * k, 0);
}

/// The smaller of two powers of two divides the larger.
pub proof fn lemma_pow2_divides(a: int, b: int)
    requires
        is_pow2(a),
        is_pow2(b),
        a <= b,
    ensures
        b % a == 0,
    decreases b,
{
    if a == 1 {
        lemma_fundamental_div_mod_converse(b, 1, b, 0);
    } else if a == b {
        lemma_fundamental_div_mod_converse(b, a, 1, 0);
    } else {
        lemma_fundamental_div_mod(a, 2);
        lemma_fundamental_div_mod(b, 2);
        let a2 = a / 2;
        let b2 = b / 2;
        assert(a == 2 * a2 && b == 2 * b2);
        assert(a2 <= b2);
        lemma_pow2_divides(a2, b2);
        lemma_fundamental_div_mod(b2, a2);
        let k = b2 / a2;
        assert(b2 == a2 * k);
        assert(b == 2 * (a2 * k));
        assert(2 * (a2 * k) == a * k) by (nonlinear_arith)
            requires
                a == 2 * a2,
        ;
        lemma_fundamental_div_mod_converse(b, a, k, 0);
    }
}

/// A power of two is at least one.
pub proof fn lemma_pow2_pos(a: int)
    requires
        is_pow2(a),
    ensures
        a >= 1,
{
}

/// Eight is a power of two.
pub proof fn lemma_pow2_8()
    ensures
        is_pow2(8),
{
    reveal_with_fuel(is_pow2, 5);
}

/// The sum of two multiples of `d` is a multiple of `d`.
pub proof fn lemma_mod_zero_add(x: int, y: int, d: int)
    requires
        d >= 1,
        x >= 0,
        y >= 0,
        x % d == 0,
        y % d == 0,
    ensures
        (x + y) % d == 0,
{
    lemma_fundamental_div_mod(x, d);
    lemma_fundamental_div_mod(y, d);
    let qx = x / d;
    let qy = y / d;
    assert(x + y == d * (qx + qy)) by (nonlinear_arith)
        requires
            x == d * qx,
            y == d * qy,
    ;
    lemma_mul_is_commutative(d, qx + qy);
    lemma_fundamental_div_mod_converse(x + y, d, qx + qy, 0);
}

/// A scaled multiple of `d` is a multiple of `d`.
pub proof fn lemma_mod_zero_scale(x: int, k: int, d: int)
    requires
        d >= 1,
        x >= 0,
        k >= 0,
        x % d == 0,
    ensures
        (k * x) % d == 0,
{
    lemma_fundamental_div_mod(x, d);
    let q = x / d;
    assert(k * x == d * (k * q)) by (nonlinear_arith)
        requires
            x == d * q,
    ;
    lemma_mul_is_commutative(d, k * q);
    lemma_fundamental_div_mod_converse(k * x, d, k * q, 0);
}

/// Round `n` up to the next multiple of `divisor`, a power of two.
///
/// The sum `n + divisor - 1` must be representable; a request for which it
/// is not is treated by the allocator as the fatal overflow condition.
pub fn round_up_to(n: usize, divisor: usize) -> (r: usize)
    requires
        is_pow2(divisor as int),
        n + divisor - 1 <= usize::MAX,
    ensures
        r as int == spec_round_up(n as int, divisor as int),
        r % divisor == 0,
        n <= r,
        (r as int) < n as int + divisor as int,
{
    proof {
        lemma_pow2_pos(divisor as int);
        lemma_round_up(n as int, divisor as int);
    }
    let m = n + (divisor - 1);
    let rem = m % divisor;
    proof {
        lemma_fundamental_div_mod(m as int, divisor as int);
        lemma_mod_bound(m as int, divisor as int);
    }
    m - rem
}

} // verus!
