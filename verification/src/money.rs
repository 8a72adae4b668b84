//! Fixed-point monetary arithmetic.
//!
//! Amounts are signed counts of minor units (hundredths) of a currency.
//! Exchange rates are scaled by `RATE_SCALE`, so a rate of `1.0` is stored
//! as `RATE_ONE`.  Conversion rounds half away from zero; every function
//! here is exact integer arithmetic, proved free of overflow.

use vstd::arithmetic::div_mod::lemma_fundamental_div_mod;
use vstd::arithmetic::mul::lemma_mul_inequality;
use vstd::prelude::*;

verus! {

/// Fixed-point denominator for exchange rates: a rate of 1.0 is stored as
/// this value.
pub const RATE_SCALE: u64 = 10_000;

/// The rate of the base currency itself (exactly 1.0).
pub const RATE_ONE: u64 = 10_000;

/// Largest admissible exchange rate (100 000.0 base units per unit).
pub const RATE_MAX: u64 = 1_000_000_000;

/// Largest admissible event amount, in minor units of its own currency.
pub const AMOUNT_MAX: i64 = 1_000_000_000_000;

/// Bound on any single posting produced by conversion or splitting.
pub const POSTING_MAX: i64 = 200_000_000_000_000_000;

/// Magnitude of an integer.
pub open spec fn mag(x: int) -> int {
    if x < 0 {
        -x
    } else {
        x
    }
}

/// Rounding division `p / q`, half away from zero; `q` must be positive
/// and even.
pub open spec fn spec_round_half(p: int, q: int) -> int
    recommends
        q > 0,
{
    if p >= 0 {
        (p + q / 2) / q
    } else {
        -((-p + q / 2) / q)
    }
}

/// Minor units of base currency for `amount` minor units of a currency
/// whose scaled rate is `rate`.
pub open spec fn spec_convert(amount: int, rate: int) -> int {
    spec_round_half(amount * rate, RATE_SCALE as int)
}

/// One recipient's rounded share `weight / den` of a converted amount.
pub open spec fn spec_share(amount: int, rate: int, weight: int, den: int) -> int {
    spec_round_half(amount * rate * weight, den * (RATE_SCALE as int))
}

/// Rounding half away from zero is off by at most half the denominator:
/// `|q * round(p/q) - p| <= q/2`.
pub proof fn lemma_round_half_err(p: int, q: int)
    requires
        q > 0,
        q % 2 == 0,
    ensures
        2 * mag(q * spec_round_half(p, q) - p) <= q,
{
    let h = q / 2;
    assert(h + h == q);
    if p >= 0 {
        let r = (p + h) / q;
        lemma_fundamental_div_mod(p + h, q);
        assert(q * r == p + h - ((p + h) % q));
    } else {
        let r = (-p + h) / q;
        lemma_fundamental_div_mod(-p + h, q);
        assert(q * r == -p + h - ((-p + h) % q));
        assert(q * spec_round_half(p, q) == -(q * r)) by (nonlinear_arith)
            requires
                spec_round_half(p, q) == -r,
        ;
    }
}

/// The rounded quotient does not overshoot a bound on the numerator:
/// if `0 <= p <= b * q` then `round(p/q) <= b + 1`.
pub proof fn lemma_round_half_le(p: int, q: int, b: int)
    requires
        q > 0,
        q % 2 == 0,
        0 <= p,
        p <= b * q,
        0 <= b,
    ensures
        0 <= spec_round_half(p, q) <= b + 1,
{
    let h = q / 2;
    lemma_fundamental_div_mod(p + h, q);
    assert((p + h) / q >= 0) by (nonlinear_arith)
        requires
            q > 0,
            p + h >= 0,
            q * ((p + h) / q) == p + h - ((p + h) % q),
            0 <= (p + h) % q < q,
    ;
    assert((p + h) / q <= b + 1) by (nonlinear_arith)
        requires
            q > 0,
            h < q,
            p <= b * q,
            q * ((p + h) / q) == p + h - ((p + h) % q),
            0 <= (p + h) % q < q,
    ;
}

/// Converting at the base rate is the identity.
pub proof fn lemma_convert_at_one(amount: int)
    ensures
        spec_convert(amount, RATE_ONE as int) == amount,
{
    let s = RATE_SCALE as int;
    let h = s / 2;
    if amount >= 0 {
        assert((amount * s + h) / s == amount) by (nonlinear_arith)
            requires
                s == 10_000,
                h == 5_000,
                amount >= 0,
        ;
    } else {
        assert((-(amount * s) + h) / s == -amount) by (nonlinear_arith)
            requires
                s == 10_000,
                h == 5_000,
                amount < 0,
        ;
    }
}

/// A converted amount within the admitted input bounds fits a posting.
pub proof fn lemma_convert_bound(amount: int, rate: int)
    requires
        mag(amount) <= AMOUNT_MAX as int,
        0 <= rate <= RATE_MAX as int,
    ensures
        mag(spec_convert(amount, rate)) <= POSTING_MAX as int,
{
    let s = RATE_SCALE as int;
    let p = amount * rate;
    let b = (AMOUNT_MAX as int) * (RATE_MAX as int) / s;
    assert(mag(p) <= b * s) by (nonlinear_arith)
        requires
            mag(amount) <= AMOUNT_MAX as int,
            0 <= rate <= RATE_MAX as int,
            p == amount * rate,
            b == 100_000_000_000_000_000int,
            s == 10_000,
    ;
    if p >= 0 {
        lemma_round_half_le(p, s, b);
    } else {
        lemma_round_half_le(-p, s, b);
    }
}

/// A share within the admitted input bounds fits a posting.
pub proof fn lemma_share_bound(amount: int, rate: int, weight: int, den: int)
    requires
        mag(amount) <= AMOUNT_MAX as int,
        0 <= rate <= RATE_MAX as int,
        0 <= weight <= den,
        1 <= den,
    ensures
        mag(spec_share(amount, rate, weight, den)) <= POSTING_MAX as int,
{
    let s = RATE_SCALE as int;
    let q = den * s;
    let p = amount * rate * weight;
    let b = (AMOUNT_MAX as int) * (RATE_MAX as int) / s;
    assert(q > 0 && q % 2 == 0) by (nonlinear_arith)
        requires
            s == 10_000,
            den >= 1,
            q == den * s,
    ;
    assert(mag(p) <= b * q) by (nonlinear_arith)
        requires
            mag(amount) <= AMOUNT_MAX as int,
            0 <= rate <= RATE_MAX as int,
            0 <= weight <= den,
            1 <= den,
            p == amount * rate * weight,
            q == den * s,
            b == 100_000_000_000_000_000int,
            s == 10_000,
    ;
    if p >= 0 {
        lemma_round_half_le(p, q, b);
    } else {
        lemma_round_half_le(-p, q, b);
    }
}

/// Rounding division of a non-negative numerator, half away from zero.
fn round_div_u128(p: u128, q: u128) -> (r: u128)
    requires
        q > 0,
        q % 2 == 0,
        p + q / 2 <= u128::MAX,
    ensures
        r == spec_round_half(p as int, q as int),
{
    (p + q / 2) / q
}

/// Convert `amount` minor units of a currency with scaled rate `rate` into
/// minor units of the base currency, rounding half away from zero.
pub fn convert_amount(amount: i64, rate: u64) -> (r: i64)
    requires
        mag(amount as int) <= AMOUNT_MAX as int,
        1 <= rate <= RATE_MAX,
    ensures
        r as int == spec_convert(amount as int, rate as int),
        mag(r as int) <= POSTING_MAX as int,
{
    proof {
        lemma_convert_bound(amount as int, rate as int);
    }
    let neg = amount < 0;
    let m: u128 = if amount < 0 {
        (-(amount as i128)) as u128
    } else {
        amount as u128
    };
    proof {
        assert(m * rate <= (AMOUNT_MAX as int) * (RATE_MAX as int)) by (nonlinear_arith)
            requires
                m <= AMOUNT_MAX as int,
                rate <= RATE_MAX,
        ;
    }
    let p: u128 = m * (rate as u128);
    let q = round_div_u128(p, RATE_SCALE as u128);
    proof {
        assert(p as int == mag(amount as int) * rate);
        if neg {
            assert((amount as int) * (rate as int) == -(p as int)) by (nonlinear_arith)
                requires
                    amount < 0,
                    p as int == (-(amount as int)) * (rate as int),
            ;
        } else {
            assert((amount as int) * (rate as int) == p as int);
        }
    }
    if neg {
        -(q as i64)
    } else {
        q as i64
    }
}

/// One recipient's share of an expense: `amount * rate * weight / (den *
/// RATE_SCALE)`, rounded half away from zero.  `den` is the sum of all
/// weights of the expense.
pub fn share_amount(amount: i64, rate: u64, weight: u32, den: u128) -> (r: i64)
    requires
        mag(amount as int) <= AMOUNT_MAX as int,
        1 <= rate <= RATE_MAX,
        1 <= den,
        weight as int <= den,
        den <= 0x1_0000_0000_0000_0000_0000_0000,
    ensures
        r as int == spec_share(amount as int, rate as int, weight as int, den as int),
        mag(r as int) <= POSTING_MAX as int,
{
    proof {
        lemma_share_bound(amount as int, rate as int, weight as int, den as int);
    }
    let neg = amount < 0;
    let m: u128 = if amount < 0 {
        (-(amount as i128)) as u128
    } else {
        amount as u128
    };
    proof {
        assert(m * rate <= (AMOUNT_MAX as int) * (RATE_MAX as int)) by (nonlinear_arith)
            requires
                m <= AMOUNT_MAX as int,
                rate <= RATE_MAX,
        ;
        assert(m * rate * weight <= (AMOUNT_MAX as int) * (RATE_MAX as int) * (u32::MAX as int))
            by (nonlinear_arith)
            requires
                m * rate <= (AMOUNT_MAX as int) * (RATE_MAX as int),
                weight <= u32::MAX,
        ;
        assert(den * (RATE_SCALE as int) <= 0x1_0000_0000_0000_0000_0000_0000 * (
        RATE_SCALE as int)) by (nonlinear_arith)
            requires
                den <= 0x1_0000_0000_0000_0000_0000_0000,
        ;
        assert((den as int) * (RATE_SCALE as int) % 2 == 0 && (den as int) * (RATE_SCALE as int)
            > 0) by (nonlinear_arith)
            requires
                1 <= den,
        ;
    }
    let p: u128 = m * (rate as u128) * (weight as u128);
    let q = round_div_u128(p, den * (RATE_SCALE as u128));
    proof {
        if neg {
            assert((amount as int) * (rate as int) * (weight as int) == -(p as int))
                by (nonlinear_arith)
                requires
                    amount < 0,
                    p as int == (-(amount as int)) * (rate as int) * (weight as int),
            ;
        } else {
            assert((amount as int) * (rate as int) * (weight as int) == p as int);
        }
        assert(q as int <= POSTING_MAX as int);
    }
    let res: i64 = if neg {
        -(q as i64)
    } else {
        q as i64
    };
    proof {
        let sh = spec_share(amount as int, rate as int, weight as int, den as int);
        assert(q <= i64::MAX as u128);
        if neg && p > 0 {
            assert(sh == -(q as int));
        } else {
            if p == 0 {
                let d = (den as int) * (RATE_SCALE as int);
                vstd::arithmetic::div_mod::lemma_basic_div(d / 2, d);
                assert(q == 0);
            }
            assert(sh == q as int);
        }
        assert(res as int == sh);
    }
    res
}

} // verus!
