//! Integer number theory used by the exact rational bookkeeping: greatest
//! common divisors, least common multiples (for putting rating entries over a
//! shared denominator) and integer square roots (for the scoring weights).
use vstd::prelude::*;
use vstd::arithmetic::div_mod::{
    lemma_fundamental_div_mod, lemma_mod_multiples_basic, lemma_mod_self_0, lemma_small_mod,
};

verus! {

/// Euclid's greatest common divisor.
pub open spec fn gcd(a: int, b: int) -> int
    decreases b when b >= 0
{
    if b <= 0 {
        a
    } else {
        gcd(b, a % b)
    }
}

/// The least common multiple of two positive integers.
pub open spec fn lcm(a: int, b: int) -> int {
    (a * b) / gcd(a, b)
}

/// `gcd(a, b)` divides both of its arguments and is positive.
pub proof fn lemma_gcd_divides(a: int, b: int)
    requires
        a >= 1,
        b >= 0,
    ensures
        gcd(a, b) >= 1,
        a % gcd(a, b) == 0,
        b % gcd(a, b) == 0,
    decreases b,
{
    if b == 0 {
        lemma_mod_self_0(a);
        lemma_small_mod(0, a as nat);
    } else {
        let r = a % b;
        lemma_gcd_divides(b, r);
        let g = gcd(b, r);
        lemma_fundamental_div_mod(a, b);
        lemma_fundamental_div_mod(b, g);
        lemma_fundamental_div_mod(r, g);
        let qb = b / g;
        let qr = r / g;
        let q = a / b;
        assert(a == (qb * q + qr) * g) by (nonlinear_arith)
            requires
                a == b * q + r,
                b == g * qb,
                r == g * qr,
        ;
        lemma_mod_multiples_basic(qb * q + qr, g);
    }
}

/// An exact divisor can be multiplied back: `x % d == 0` gives `d * (x / d) == x`.
pub proof fn lemma_div_exact(x: int, d: int)
    requires
        d >= 1,
        x % d == 0,
    ensures
        d * (x / d) == x,
{
    lemma_fundamental_div_mod(x, d);
}

/// Greatest common divisor of two machine words.
pub fn gcd_u64(a: u64, b: u64) -> (g: u64)
    ensures
        g as int == gcd(a as int, b as int),
    decreases b,
{
    if b == 0 {
        a
    } else {
        gcd_u64(b, a % b)
    }
}

/// Greatest common divisor of two wide words.
pub fn gcd_u128(a: u128, b: u128) -> (g: u128)
    ensures
        g as int == gcd(a as int, b as int),
    decreases b,
{
    if b == 0 {
        a
    } else {
        gcd_u128(b, a % b)
    }
}

/// Least common multiple of two positive machine words, or `None` when the
/// result does not fit in a `u64`.
pub fn lcm_u64(a: u64, b: u64) -> (r: Option<u64>)
    requires
        a >= 1,
        b >= 1,
    ensures
        r is Some <==> lcm(a as int, b as int) <= u64::MAX,
        r is Some ==> {
            &&& r->Some_0 as int == lcm(a as int, b as int)
            &&& r->Some_0 as int % (a as int) == 0
            &&& r->Some_0 as int % (b as int) == 0
            &&& r->Some_0 >= a
            &&& r->Some_0 >= b
        },
{
    let g = gcd_u64(a, b);
    proof {
        lemma_gcd_divides(a as int, b as int);
    }
    let q = a / g;
    proof {
        let ai = a as int;
        let bi = b as int;
        let gi = g as int;
        let qa = ai / gi;
        let qb = bi / gi;
        lemma_div_exact(ai, gi);
        lemma_div_exact(bi, gi);
        assert(qa >= 1 && qb >= 1) by (nonlinear_arith)
            requires
                gi >= 1,
                ai >= 1,
                bi >= 1,
                gi * qa == ai,
                gi * qb == bi,
        ;
        // lcm(a, b) == (a / g) * b, shown from a == g * (a / g).
        assert(ai * bi == (qa * bi) * gi) by (nonlinear_arith)
            requires
                gi * qa == ai,
        ;
        vstd::arithmetic::div_mod::lemma_div_multiples_vanish(qa * bi, gi);
        assert((ai * bi) / gi == qa * bi);
        lemma_mod_multiples_basic(qa, bi);
        assert(qa * bi == qb * ai) by (nonlinear_arith)
            requires
                gi * qa == ai,
                gi * qb == bi,
        ;
        lemma_mod_multiples_basic(qb, ai);
        assert(qa * bi >= bi) by (nonlinear_arith)
            requires
                qa >= 1,
                bi >= 1,
        ;
        assert(qb * ai >= ai) by (nonlinear_arith)
            requires
                qb >= 1,
                ai >= 1,
        ;
    }
    q.checked_mul(b)
}

/// The least common multiple of two positive integers is a positive
/// multiple of both, and at least as large as either.
pub proof fn lemma_lcm_props(a: int, b: int)
    requires
        a >= 1,
        b >= 1,
    ensures
        lcm(a, b) % a == 0,
        lcm(a, b) % b == 0,
        lcm(a, b) >= a,
        lcm(a, b) >= b,
{
    lemma_gcd_divides(a, b);
    let g = gcd(a, b);
    let qa = a / g;
    let qb = b / g;
    lemma_div_exact(a, g);
    lemma_div_exact(b, g);
    assert(qa >= 1 && qb >= 1) by (nonlinear_arith)
        requires
            g >= 1,
            a >= 1,
            b >= 1,
            g * qa == a,
            g * qb == b,
    ;
    assert(a * b == (qa * b) * g) by (nonlinear_arith)
        requires
            g * qa == a,
    ;
    vstd::arithmetic::div_mod::lemma_div_multiples_vanish(qa * b, g);
    assert((a * b) / g == qa * b);
    lemma_mod_multiples_basic(qa, b);
    assert(qa * b == qb * a) by (nonlinear_arith)
        requires
            g * qa == a,
            g * qb == b,
    ;
    lemma_mod_multiples_basic(qb, a);
    assert(qa * b >= b) by (nonlinear_arith)
        requires
            qa >= 1,
            b >= 1,
    ;
    assert(qb * a >= a) by (nonlinear_arith)
        requires
            qb >= 1,
            a >= 1,
    ;
}

/// A positive divisor of a positive integer is no larger than it.
pub proof fn lemma_divides_le(a: int, b: int)
    requires
        a >= 1,
        b >= 1,
        b % a == 0,
    ensures
        a <= b,
{
    lemma_div_exact(b, a);
    assert(a <= b) by (nonlinear_arith)
        requires
            a >= 1,
            b >= 1,
            b == a * (b / a),
    ;
}

/// Divisibility is transitive.
pub proof fn lemma_divides_trans(a: int, b: int, c: int)
    requires
        a >= 1,
        b >= 1,
        b % a == 0,
        c % b == 0,
    ensures
        c % a == 0,
{
    lemma_div_exact(b, a);
    lemma_div_exact(c, b);
    assert(c == ((b / a) * (c / b)) * a) by (nonlinear_arith)
        requires
            b == a * (b / a),
            c == b * (c / b),
    ;
    lemma_mod_multiples_basic((b / a) * (c / b), a);
}

/// The integer square root as a mathematical function.
pub open spec fn isqrt(v: int) -> int {
    choose|r: int| r >= 0 && #[trigger] (r * r) <= v && v < (r + 1) * (r + 1)
}

/// Every nonnegative integer has an integer square root, and `isqrt`
/// satisfies its characterization there.
pub proof fn lemma_isqrt_bounds(v: int)
    requires
        v >= 0,
    ensures
        isqrt(v) >= 0,
        isqrt(v) * isqrt(v) <= v,
        v < (isqrt(v) + 1) * (isqrt(v) + 1),
    decreases v,
{
    if v == 0 {
        assert(exists|x: int| x >= 0 && #[trigger] (x * x) <= 0 && 0 < (x + 1) * (x + 1)) by {
            assert(0int * 0int <= 0 && 0 < (0int + 1) * (0int + 1));
        }
    } else {
        lemma_isqrt_bounds(v - 1);
        let r = isqrt(v - 1);
        if v < (r + 1) * (r + 1) {
            assert(exists|x: int| x >= 0 && #[trigger] (x * x) <= v && v < (x + 1) * (x + 1)) by {
                assert(r >= 0 && r * r <= v && v < (r + 1) * (r + 1));
            }
        } else {
            assert(v == (r + 1) * (r + 1));
            assert((r + 1) * (r + 1) < (r + 2) * (r + 2)) by (nonlinear_arith)
                requires
                    r >= 0,
            ;
            assert(exists|x: int| x >= 0 && #[trigger] (x * x) <= v && v < (x + 1) * (x + 1)) by {
                assert((r + 1) >= 0 && (r + 1) * (r + 1) <= v && v < (r + 2) * (r + 2));
            }
        }
    }
}

/// Any integer satisfying the square-root characterization is `isqrt(v)`.
pub proof fn lemma_isqrt_eq(v: int, r: int)
    requires
        r >= 0,
        r * r <= v,
        v < (r + 1) * (r + 1),
    ensures
        isqrt(v) == r,
{
    assert(exists|x: int| x >= 0 && #[trigger] (x * x) <= v && v < (x + 1) * (x + 1)) by {
        assert(r >= 0 && r * r <= v && v < (r + 1) * (r + 1));
    }
    let s = isqrt(v);
    assert(s >= 0 && s * s <= v && v < (s + 1) * (s + 1));
    assert(s == r) by (nonlinear_arith)
        requires
            r >= 0,
            s >= 0,
            r * r <= v,
            v < (r + 1) * (r + 1),
            s * s <= v,
            v < (s + 1) * (s + 1),
    ;
}

/// Integer square root of a wide word, by bisection.
pub fn isqrt_u128(v: u128) -> (r: u64)
    requires
        v < (1u128 << 84),
    ensures
        (r as int) * (r as int) <= v as int,
        (v as int) < (r as int + 1) * (r as int + 1),
        r as int == isqrt(v as int),
{
    assert((1u128 << 84) < (1u128 << 85)) by (bit_vector);
    let mut lo: u64 = 0;
    let mut hi: u64 = 1u64 << 43;
    assert((1u64 << 43) as u128 * (1u64 << 43) as u128 >= (1u128 << 84)) by (bit_vector);
    while lo + 1 < hi
        invariant
            lo < hi,
            hi <= 1u64 << 43,
            (lo as int) * (lo as int) <= v as int,
            (v as int) < (hi as int) * (hi as int),
        decreases hi - lo,
    {
        let mid: u64 = lo + (hi - lo) / 2;
        proof {
            assert((1u64 << 43) as u128 == (1u128 << 43) && (1u128 << 43) * (1u128 << 43) == (
            1u128 << 86) && (1u128 << 86) < u128::MAX) by (bit_vector);
            assert((mid as u128) * (mid as u128) <= (1u128 << 86)) by (nonlinear_arith)
                requires
                    mid as u128 <= (1u128 << 43),
                    (1u128 << 43) * (1u128 << 43) == (1u128 << 86),
            ;
        }
        let sq: u128 = (mid as u128) * (mid as u128);
        if sq <= v {
            lo = mid;
        } else {
            hi = mid;
        }
    }
    proof {
        lemma_isqrt_eq(v as int, lo as int);
    }
    lo
}

} // verus!
