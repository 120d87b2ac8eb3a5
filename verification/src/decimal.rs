//! Exact decimal numbers, used for the `Float` attribute type.
//!
//! A value is `mantissa * 10^(-scale)`: an exact signed decimal, so that
//! comparisons never suffer binary floating-point rounding.

use vstd::prelude::*;

verus! {

/// An exact decimal number `mantissa * 10^(-scale)`.
#[derive(Clone, Copy, PartialEq, Eq, Structural, Debug)]
pub struct Decimal {
    pub mantissa: i64,
    pub scale: u32,
}

/// `10^e` as a mathematical integer.
pub open spec fn pow10(e: nat) -> int
    decreases e,
{
    if e == 0 {
        1
    } else {
        10 * pow10((e - 1) as nat)
    }
}

/// `a < b` as rational numbers: `ma/10^sa < mb/10^sb  <=>  ma*10^sb < mb*10^sa`.
pub open spec fn dec_lt(a: Decimal, b: Decimal) -> bool {
    a.mantissa * pow10(b.scale as nat) < b.mantissa * pow10(a.scale as nat)
}

/// `a == b` as rational numbers.
pub open spec fn dec_eq(a: Decimal, b: Decimal) -> bool {
    a.mantissa * pow10(b.scale as nat) == b.mantissa * pow10(a.scale as nat)
}

pub proof fn lemma_pow10_pos(e: nat)
    ensures
        pow10(e) >= 1,
    decreases e,
{
    if e > 0 {
        lemma_pow10_pos((e - 1) as nat);
    }
}

pub proof fn lemma_pow10_add(a: nat, b: nat)
    ensures
        pow10(a + b) == pow10(a) * pow10(b),
    decreases a,
{
    if a == 0 {
        assert(pow10(0 + b) == 1 * pow10(b));
    } else {
        lemma_pow10_add((a - 1) as nat, b);
        assert(pow10(a + b) == 10 * pow10(((a + b) - 1) as nat));
        assert(10 * ((pow10((a - 1) as nat)) * pow10(b)) == (10 * pow10((a - 1) as nat)) * pow10(
            b,
        )) by (nonlinear_arith);
    }
}

pub proof fn lemma_pow10_mono(a: nat, b: nat)
    requires
        a <= b,
    ensures
        pow10(a) <= pow10(b),
    decreases b,
{
    if a < b {
        lemma_pow10_mono(a, (b - 1) as nat);
        lemma_pow10_pos((b - 1) as nat);
    }
}

proof fn lemma_pow10_19()
    ensures
        pow10(19) == 10_000_000_000_000_000_000,
{
    reveal_with_fuel(pow10, 20);
}

proof fn lemma_pow10_18()
    ensures
        pow10(18) == 1_000_000_000_000_000_000,
{
    reveal_with_fuel(pow10, 19);
}

/// Multiplying both sides of a comparison by a positive factor keeps its direction.
proof fn lemma_mul_cancel(x: int, y: int, p: int)
    requires
        p >= 1,
    ensures
        (x * p < y * p) == (x < y),
        (x * p == y * p) == (x == y),
{
    assert((x * p < y * p) == (x < y)) by (nonlinear_arith)
        requires
            p >= 1,
    ;
    assert((x * p == y * p) == (x == y)) by (nonlinear_arith)
        requires
            p >= 1,
    ;
}

/// Compare `ma * 10^d` with `mb`, returning -1, 0 or 1.
fn cmp_scaled(ma: i64, mb: i64, d: u32) -> (r: i8)
    ensures
        r == -1 || r == 0 || r == 1,
        (r == -1) == (ma * pow10(d as nat) < mb),
        (r == 0) == (ma * pow10(d as nat) == mb),
        (r == 1) == (ma * pow10(d as nat) > mb),
{
    if d >= 19 {
        proof {
            lemma_pow10_19();
            lemma_pow10_mono(19, d as nat);
            if ma >= 1 {
                assert(ma * pow10(d as nat) >= 1 * pow10(d as nat)) by (nonlinear_arith)
                    requires
                        ma >= 1,
                        pow10(d as nat) >= 0,
                ;
            }
            if ma <= -1 {
                assert(ma * pow10(d as nat) <= (-1) * pow10(d as nat)) by (nonlinear_arith)
                    requires
                        ma <= -1,
                        pow10(d as nat) >= 0,
                ;
            }
        }
        if ma == 0 {
            if 0 < mb {
                -1
            } else if mb == 0 {
                0
            } else {
                1
            }
        } else if ma > 0 {
            1
        } else {
            -1
        }
    } else {
        let mut p: i128 = 1;
        let mut k: u32 = 0;
        while k < d
            invariant
                k <= d,
                d <= 18,
                p == pow10(k as nat),
            decreases d - k,
        {
            proof {
                lemma_pow10_mono((k + 1) as nat, 18);
                lemma_pow10_18();
                lemma_pow10_pos(k as nat);
            }
            p = p * 10;
            k = k + 1;
        }
        proof {
            lemma_pow10_mono(d as nat, 18);
            lemma_pow10_18();
            lemma_pow10_pos(d as nat);
            assert(ma * p <= i128::MAX && ma * p >= i128::MIN) by (nonlinear_arith)
                requires
                    -0x8000_0000_0000_0000 <= ma <= 0x7fff_ffff_ffff_ffff,
                    1 <= p <= 1_000_000_000_000_000_000,
            ;
        }
        let lhs: i128 = (ma as i128) * p;
        let rhs: i128 = mb as i128;
        if lhs < rhs {
            -1
        } else if lhs == rhs {
            0
        } else {
            1
        }
    }
}

/// Compare two decimals as rational numbers: -1 if `a < b`, 0 if equal, 1 if `a > b`.
pub fn dec_cmp(a: &Decimal, b: &Decimal) -> (r: i8)
    ensures
        r == -1 || r == 0 || r == 1,
        (r == -1) == dec_lt(*a, *b),
        (r == 0) == dec_eq(*a, *b),
        (r == 1) == dec_lt(*b, *a),
{
    if a.scale <= b.scale {
        let d: u32 = b.scale - a.scale;
        let r = cmp_scaled(a.mantissa, b.mantissa, d);
        proof {
            lemma_pow10_add(d as nat, a.scale as nat);
            lemma_pow10_pos(a.scale as nat);
            lemma_pow10_pos(d as nat);
            let pa = pow10(a.scale as nat);
            let pd = pow10(d as nat);
            assert(a.mantissa * (pd * pa) == (a.mantissa * pd) * pa) by (nonlinear_arith);
            lemma_mul_cancel(a.mantissa * pd, b.mantissa as int, pa);
        }
        r
    } else {
        let d: u32 = a.scale - b.scale;
        let r = cmp_scaled(b.mantissa, a.mantissa, d);
        proof {
            lemma_pow10_add(d as nat, b.scale as nat);
            lemma_pow10_pos(b.scale as nat);
            lemma_pow10_pos(d as nat);
            let pb = pow10(b.scale as nat);
            let pd = pow10(d as nat);
            assert(b.mantissa * (pd * pb) == (b.mantissa * pd) * pb) by (nonlinear_arith);
            lemma_mul_cancel(b.mantissa * pd, a.mantissa as int, pb);
        }
        if r == -1 {
            1
        } else if r == 0 {
            0
        } else {
            -1
        }
    }
}

} // verus!
