//! Two's-complement arithmetic on 64-bit signed integers: the value semantics
//! that both the source language and the target machine share.
//!
//! All binary operators wrap silently modulo 2^64. Division truncates toward
//! zero; dividing the minimum value by -1 wraps back to the minimum value, and
//! dividing by zero yields zero (the target's defined behaviour, not a trap).
//! The remainder is `dividend - quotient * divisor` computed with wrapping
//! operations, so its sign matches the dividend's.
use vstd::prelude::*;

verus! {

pub open spec fn wrap_add(a: i64, b: i64) -> i64 {
    vstd::wrapping::i64_specs::wrapping_add(a, b)
}

pub open spec fn wrap_sub(a: i64, b: i64) -> i64 {
    vstd::wrapping::i64_specs::wrapping_sub(a, b)
}

pub open spec fn wrap_mul(a: i64, b: i64) -> i64 {
    vstd::wrapping::i64_specs::wrapping_mul(a, b)
}

/// Two's-complement negation: the minimum value negates to itself.
pub open spec fn wrap_neg(a: i64) -> i64 {
    wrap_sub(0, a)
}

/// Integer division truncated toward zero, on unbounded integers.
pub open spec fn trunc_div_int(a: int, b: int) -> int
    recommends
        b != 0,
{
    if a >= 0 && b > 0 {
        a / b
    } else if a < 0 && b < 0 {
        (-a) / (-b)
    } else if a < 0 {
        -((-a) / b)
    } else {
        -(a / (-b))
    }
}

/// 64-bit signed division as the target machine defines it: truncated toward
/// zero, zero when the divisor is zero, and the minimum value for
/// `minimum / -1` (the one quotient that overflows).
pub open spec fn sdiv(a: i64, b: i64) -> i64 {
    if b == 0 {
        0
    } else if a == i64::MIN && b == -1 {
        i64::MIN
    } else {
        trunc_div_int(a as int, b as int) as i64
    }
}

/// The remainder the generated code computes: `a - sdiv(a, b) * b` with
/// wrapping subtraction and multiplication. For `b == 0` this yields `a`;
/// for `minimum % -1` it yields zero.
pub open spec fn smod(a: i64, b: i64) -> i64 {
    wrap_sub(a, wrap_mul(sdiv(a, b), b))
}

pub open spec fn abs_int(a: int) -> int {
    if a >= 0 {
        a
    } else {
        -a
    }
}

/// An integer already in the 64-bit signed range is its own wrapped value.
pub proof fn lemma_signed_crop_identity(x: int)
    requires
        i64::MIN <= x <= i64::MAX,
    ensures
        vstd::wrapping::i64_specs::signed_crop(x) == x as i64,
{
    let range = 0x1_0000_0000_0000_0000int;
    if x >= 0 {
        vstd::arithmetic::div_mod::lemma_small_mod(x as nat, range as nat);
    } else {
        vstd::arithmetic::div_mod::lemma_mod_add_multiples_vanish(x, range);
        vstd::arithmetic::div_mod::lemma_small_mod((x + range) as nat, range as nat);
    }
}

/// The truncated quotient of 64-bit values stays in the 64-bit range except
/// for `minimum / -1`.
pub proof fn lemma_trunc_div_in_range(a: i64, b: i64)
    requires
        b != 0,
        !(a == i64::MIN && b == -1),
    ensures
        i64::MIN <= trunc_div_int(a as int, b as int) <= i64::MAX,
        abs_int(trunc_div_int(a as int, b as int)) == abs_int(a as int) / abs_int(b as int),
{
    let ai = a as int;
    let bi = b as int;
    let n = abs_int(ai);
    let d = abs_int(bi);
    vstd::arithmetic::div_mod::lemma_div_nonincreasing(n, d);
    vstd::arithmetic::div_mod::lemma_div_pos_is_pos(n, d);
    let qn = n / d;
    assert(0 <= qn <= n);
    // A positive quotient arises only when dividend and divisor share a sign.
    // The one magnitude that exceeds the positive range is the minimum
    // value's, and then a negative divisor other than -1 has magnitude at
    // least two, halving the quotient back into range.
    if ai < 0 && bi < 0 && n == 0x8000_0000_0000_0000 {
        assert(d >= 2);
        vstd::arithmetic::div_mod::lemma_div_is_ordered_by_denominator(n, 2, d);
        vstd::arithmetic::div_mod::lemma_div_multiples_vanish(0x4000_0000_0000_0000, 2);
        assert(n / 2 == 0x4000_0000_0000_0000);
        assert(qn <= 0x4000_0000_0000_0000);
    }
}

/// Truncated division and the wrapped remainder satisfy the exact division
/// identity on unbounded integers: `a == b * q + r`, the remainder's
/// magnitude is below the divisor's, and a nonzero remainder has the
/// dividend's sign. This holds for every pair except `b == 0` and
/// `minimum / -1`, where the machine's wrapping conventions take over.
pub proof fn lemma_division_identity(a: i64, b: i64)
    requires
        b != 0,
        !(a == i64::MIN && b == -1),
    ensures
        a as int == (b as int) * (sdiv(a, b) as int) + (smod(a, b) as int),
        abs_int(smod(a, b) as int) < abs_int(b as int),
        smod(a, b) == 0 || ((smod(a, b) > 0) <==> (a > 0)),
{
    let ai = a as int;
    let bi = b as int;
    let n = abs_int(ai);
    let d = abs_int(bi);
    lemma_trunc_div_in_range(a, b);
    vstd::arithmetic::div_mod::lemma_fundamental_div_mod(n, d);
    vstd::arithmetic::div_mod::lemma_mod_bound(n, d);
    vstd::arithmetic::div_mod::lemma_div_pos_is_pos(n, d);
    let qn = n / d;
    let rn = n % d;
    assert(n == d * qn + rn);
    let q = trunc_div_int(ai, bi);
    assert(sdiv(a, b) == q as i64);
    // In every sign case, `bi * q` equals `d * qn` carrying the dividend's
    // sign, so the exact remainder is the magnitude remainder with that sign.
    let p = bi * q;
    if ai >= 0 && bi > 0 {
        assert(q == qn && bi == d && ai == n);
        assert(p == d * qn);
    } else if ai < 0 && bi < 0 {
        assert(q == qn && bi == -d && ai == -n);
        assert(p == -(d * qn)) by (nonlinear_arith)
            requires
                p == bi * q,
                bi == -d,
                q == qn,
        ;
    } else if ai < 0 {
        assert(q == -qn && bi == d && ai == -n);
        assert(p == -(d * qn)) by (nonlinear_arith)
            requires
                p == bi * q,
                bi == d,
                q == -qn,
        ;
    } else {
        assert(q == -qn && bi == -d && ai == n);
        assert(p == d * qn) by (nonlinear_arith)
            requires
                p == bi * q,
                bi == -d,
                q == -qn,
        ;
    }
    assert(d * qn >= 0) by (nonlinear_arith)
        requires
            d > 0,
            qn >= 0,
    ;
    assert(d * qn <= n);
    assert(i64::MIN <= p <= i64::MAX);
    let r = ai - p;
    assert(r == if ai >= 0 { rn } else { -rn });
    assert(i64::MIN <= r <= i64::MAX);
    // The 64-bit computation of the remainder performs no wrapping.
    assert(wrap_mul(sdiv(a, b), b) == p as i64) by {
        assert((q as i64) as int * (b as int) == bi * q) by (nonlinear_arith)
            requires
                (q as i64) as int == q,
                bi == b as int,
        ;
        lemma_signed_crop_identity(p);
    }
    assert(smod(a, b) == r as i64);
}

/// Executable wrapped negation.
pub fn neg64(a: i64) -> (r: i64)
    ensures
        r == wrap_neg(a),
{
    0i64.wrapping_sub(a)
}

/// Executable truncating division with the machine's edge cases folded in.
pub fn sdiv64(a: i64, b: i64) -> (r: i64)
    ensures
        r == sdiv(a, b),
{
    if b == 0 {
        0
    } else {
        proof {
            if !(a == i64::MIN && b == -1) {
                lemma_trunc_div_in_range(a, b);
                assert(a.checked_div(b) == Some(trunc_div_int(a as int, b as int) as i64));
            }
        }
        match a.checked_div(b) {
            Some(q) => q,
            None => i64::MIN,
        }
    }
}

/// Executable remainder, computed exactly as the generated code computes it.
pub fn smod64(a: i64, b: i64) -> (r: i64)
    ensures
        r == smod(a, b),
{
    let q = sdiv64(a, b);
    a.wrapping_sub(q.wrapping_mul(b))
}

} // verus!
