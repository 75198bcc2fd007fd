//! Fixed-point decimal arithmetic for prices, sizes and notionals.
//!
//! Every quantity in the pipeline is a signed decimal with twelve fractional
//! digits, stored as an `i128` count of units of `10^-12`. Addition and
//! subtraction are exact; multiplication and division truncate the result
//! toward zero at the twelfth fractional digit; rounding to a coarser number
//! of decimal places is round-half-to-even.

use vstd::prelude::*;
use vstd::arithmetic::div_mod::{
    lemma_div_is_ordered, lemma_div_multiples_vanish, lemma_fundamental_div_mod,
    lemma_remainder_lower, lemma_remainder_upper,
};
use vstd::arithmetic::mul::lemma_mul_unary_negation;

verus! {

/// Number of `10^-12` units in 1, i.e. the fixed scale of [`Dec`].
pub const DEC_UNIT: i128 = 1_000_000_000_000;

/// A decimal number with twelve fractional digits: the value is
/// `units / 10^12`.
#[derive(Clone, Copy, Debug, PartialEq, Eq, Structural)]
pub struct Dec {
    pub units: i128,
}

/// Truncating division (toward zero) of `a` by a positive `b`, the behaviour
/// of machine signed division.
pub open spec fn tdiv(a: int, b: int) -> int
    recommends
        b > 0,
{
    if a >= 0 {
        a / b
    } else {
        -((-a) / b)
    }
}

/// The product of two unit counts, brought back to the fixed scale by
/// truncating division.
pub open spec fn dec_mul(a: int, b: int) -> int {
    tdiv(a * b, DEC_UNIT as int)
}

/// The quotient of two unit counts at the fixed scale, truncated toward zero.
pub open spec fn dec_div(a: int, b: int) -> int
    recommends
        b > 0,
{
    tdiv(a * (DEC_UNIT as int), b)
}

/// Whether the intermediate product in `dec_mul(a, b)` fits the machine.
pub open spec fn mul_fits(a: int, b: int) -> bool {
    -(u128::MAX as int) <= a * b <= u128::MAX as int
}

/// Whether `a` may stand as the dividend of `dec_div` without overflow.
pub open spec fn div_fits(a: int) -> bool {
    -(i128::MAX as int) <= a * (DEC_UNIT as int) <= i128::MAX as int
}

/// `10^e`.
pub open spec fn pow10(e: nat) -> int
    decreases e,
{
    if e == 0 {
        1
    } else {
        10 * pow10((e - 1) as nat)
    }
}

pub proof fn lemma_pow10_pos(e: nat)
    ensures
        pow10(e) >= 1,
    decreases e,
{
    if e > 0 {
        lemma_pow10_pos((e - 1) as nat);
    }
}

pub proof fn lemma_pow10_increases(e1: nat, e2: nat)
    requires
        e1 <= e2,
    ensures
        pow10(e1) <= pow10(e2),
    decreases e2,
{
    if e1 < e2 {
        lemma_pow10_increases(e1, (e2 - 1) as nat);
        lemma_pow10_pos((e2 - 1) as nat);
    }
}

/// `n` rounded to the nearest multiple of `m`, ties to the even multiple,
/// for `n >= 0`, `m > 0`.
pub open spec fn round_he_nn(n: int, m: int) -> int
    recommends
        n >= 0,
        m > 0,
{
    let q = n / m;
    let r2 = 2 * (n % m);
    if r2 < m {
        q * m
    } else if r2 > m {
        (q + 1) * m
    } else if q % 2 == 0 {
        q * m
    } else {
        (q + 1) * m
    }
}

/// `n` rounded to the nearest multiple of `m > 0`, ties to even, symmetric
/// about zero (the behaviour of round-half-even on a signed decimal).
pub open spec fn round_he(n: int, m: int) -> int
    recommends
        m > 0,
{
    if n >= 0 {
        round_he_nn(n, m)
    } else {
        -round_he_nn(-n, m)
    }
}

impl Dec {
    /// The decimal zero.
    pub fn zero() -> (r: Dec)
        ensures
            r.units == 0,
    {
        Dec { units: 0 }
    }

    /// The decimal holding exactly `units` counts of `10^-12`.
    pub fn from_units(units: i128) -> (r: Dec)
        ensures
            r.units == units,
    {
        Dec { units }
    }

    /// The decimal with integer value `v`.
    pub fn from_int(v: i64) -> (r: Dec)
        ensures
            r.units == v * (DEC_UNIT as int),
    {
        Dec { units: (v as i128) * DEC_UNIT }
    }

    /// Exact addition.
    pub fn add(self, o: Dec) -> (r: Dec)
        requires
            i128::MIN <= self.units + o.units <= i128::MAX,
        ensures
            r.units == self.units + o.units,
    {
        Dec { units: self.units + o.units }
    }

    /// Exact subtraction.
    pub fn sub(self, o: Dec) -> (r: Dec)
        requires
            i128::MIN <= self.units - o.units <= i128::MAX,
        ensures
            r.units == self.units - o.units,
    {
        Dec { units: self.units - o.units }
    }

    /// True iff `self < o`.
    pub fn lt(self, o: Dec) -> (r: bool)
        ensures
            r == (self.units < o.units),
    {
        self.units < o.units
    }

    /// True iff `self <= o`.
    pub fn le(self, o: Dec) -> (r: bool)
        ensures
            r == (self.units <= o.units),
    {
        self.units <= o.units
    }

    /// True iff `self > o`.
    pub fn gt(self, o: Dec) -> (r: bool)
        ensures
            r == (self.units > o.units),
    {
        self.units > o.units
    }

    /// True iff the value is strictly positive.
    pub fn is_positive(self) -> (r: bool)
        ensures
            r == (self.units > 0),
    {
        self.units > 0
    }

    /// Truncating multiplication at the fixed scale.
    pub fn mul(self, o: Dec) -> (r: Dec)
        requires
            self.units > i128::MIN,
            o.units > i128::MIN,
            mul_fits(self.units as int, o.units as int),
        ensures
            r.units == dec_mul(self.units as int, o.units as int),
    {
        let a = self.units;
        let b = o.units;
        let na = mag(a);
        let nb = mag(b);
        proof {
            lemma_abs_mul(a as int, b as int);
        }
        let prod: u128 = na * nb;
        let q: u128 = prod / (DEC_UNIT as u128);
        proof {
            lemma_div_is_ordered(prod as int, u128::MAX as int, DEC_UNIT as int);
            assert((u128::MAX as int) / (DEC_UNIT as int) < i128::MAX as int) by {
                vstd::arithmetic::div_mod::lemma_basic_div_specific_divisor(DEC_UNIT as int);
                assert((u128::MAX as int) / (DEC_UNIT as int) <= u128::MAX as int / 1000000000000) by (nonlinear_arith);
            };
            lemma_tdiv_by_sign(a as int * b as int, prod as int, DEC_UNIT as int);
            assert((((a as int) < 0) != ((b as int) < 0)) ==> (a as int) * (b as int) <= 0)
                by (nonlinear_arith);
            assert((((a as int) < 0) == ((b as int) < 0)) ==> (a as int) * (b as int) >= 0)
                by (nonlinear_arith);
            assert(0int / (DEC_UNIT as int) == 0);
        }
        if (a < 0) != (b < 0) {
            Dec { units: -(q as i128) }
        } else {
            Dec { units: q as i128 }
        }
    }

    /// Truncating division at the fixed scale, by a positive divisor.
    pub fn div(self, o: Dec) -> (r: Dec)
        requires
            self.units > i128::MIN,
            o.units > 0,
            div_fits(self.units as int),
        ensures
            r.units == dec_div(self.units as int, o.units as int),
    {
        let a = self.units;
        let b = o.units;
        let na = mag(a);
        proof {
            lemma_abs_mul(a as int, DEC_UNIT as int);
        }
        let p: u128 = na * (DEC_UNIT as u128);
        let q: u128 = p / (b as u128);
        proof {
            lemma_div_is_ordered(p as int, i128::MAX as int, b as int);
            vstd::arithmetic::div_mod::lemma_div_nonincreasing(i128::MAX as int, b as int);
            lemma_tdiv_by_sign(a as int * (DEC_UNIT as int), p as int, b as int);
        }
        if a < 0 {
            Dec { units: -(q as i128) }
        } else {
            Dec { units: q as i128 }
        }
    }

    /// Round to `dp` decimal places, half-to-even, symmetric about zero.
    pub fn round_dp(self, dp: u32) -> (r: Dec)
        requires
            dp <= 12,
            -(i128::MAX - DEC_UNIT) <= self.units <= i128::MAX - DEC_UNIT,
        ensures
            r.units == round_he(self.units as int, pow10((12 - dp) as nat)),
    {
        let m: u128 = pow10_u128(12 - dp);
        proof {
            lemma_pow10_pos((12 - dp) as nat);
            lemma_pow10_increases((12 - dp) as nat, 12);
            assert(pow10(12) == 1_000_000_000_000int) by {
                reveal_with_fuel(pow10, 13);
            };
        }
        let n = mag(self.units);
        let q = n / m;
        let rem = n % m;
        let r2 = 2 * rem;
        let rq = if r2 < m {
            q
        } else if r2 > m {
            q + 1
        } else if q % 2 == 0 {
            q
        } else {
            q + 1
        };
        proof {
            lemma_fundamental_div_mod(n as int, m as int);
            lemma_remainder_lower(n as int, m as int);
            lemma_remainder_upper(n as int, m as int);
            assert(rq * m <= n + m) by (nonlinear_arith)
                requires
                    rq <= q + 1,
                    m > 0,
                    q * m + rem == n,
                    rem >= 0,
                    q == n as int / m as int,
            ;
        }
        let out = rq * m;
        if self.units < 0 {
            Dec { units: -(out as i128) }
        } else {
            Dec { units: out as i128 }
        }
    }

    /// Build a decimal from a mantissa and a power-of-ten scale, as venue
    /// numbers are reported. Values finer than twelve fractional digits are
    /// rounded half-to-even; values too large for the fixed scale give `None`.
    pub fn from_parts(mantissa: i128, scale: u32) -> (r: Option<Dec>)
        requires
            mantissa > i128::MIN,
            scale <= 28,
        ensures
            r is Some <==> (scale > 12 || -(i128::MAX as int) <= mantissa as int * pow10(
                (12 - scale) as nat,
            ) <= i128::MAX as int),
            r matches Some(d) ==> d.units == units_from_parts(mantissa as int, scale as nat)
                && d.units > i128::MIN,
    {
        let na = mag(mantissa);
        if scale <= 12 {
            let e = pow10_u128(12 - scale);
            proof {
                lemma_pow10_pos((12 - scale) as nat);
                lemma_abs_mul(mantissa as int, pow10((12 - scale) as nat));
                let mi = mantissa as int;
                let ei = pow10((12 - scale) as nat);
                assert(mi >= 0 ==> mi * ei >= 0) by (nonlinear_arith)
                    requires
                        ei > 0,
                ;
                assert(mi < 0 ==> mi * ei < 0) by (nonlinear_arith)
                    requires
                        ei > 0,
                ;
            }
            match na.checked_mul(e) {
                Some(p) => {
                    if p <= i128::MAX as u128 {
                        if mantissa < 0 {
                            Some(Dec { units: -(p as i128) })
                        } else {
                            Some(Dec { units: p as i128 })
                        }
                    } else {
                        None
                    }
                },
                None => None,
            }
        } else {
            let e = pow10_u128(scale - 12);
            proof {
                lemma_pow10_pos((scale - 12) as nat);
                lemma_pow10_increases(1, (scale - 12) as nat);
            }
            let q = na / e;
            let rem = na % e;
            proof {
                lemma_pow10_increases((scale - 12) as nat, 16);
                assert(pow10(16) == 10_000_000_000_000_000int) by {
                    reveal_with_fuel(pow10, 17);
                };
                vstd::arithmetic::div_mod::lemma_mod_division_less_than_divisor(
                    na as int,
                    e as int,
                );
            }
            let r2 = 2 * rem;
            let rq = if r2 < e {
                q
            } else if r2 > e {
                q + 1
            } else if q % 2 == 0 {
                q
            } else {
                q + 1
            };
            proof {
                let ni = na as int;
                let ei = e as int;
                lemma_fundamental_div_mod(ni, ei);
                lemma_remainder_lower(ni, ei);
                lemma_remainder_upper(ni, ei);
                lemma_div_is_ordered(ni, i128::MAX as int, ei);
                vstd::arithmetic::div_mod::lemma_div_nonincreasing(i128::MAX as int, ei);
                assert(rq as int * ei <= ni + ei) by (nonlinear_arith)
                    requires
                        rq <= q + 1,
                        ei > 0,
                        (q as int) * ei + rem == ni,
                        rem >= 0,
                        q == ni / ei,
                ;
                assert(round_he_nn(ni, ei) == rq * ei);
                lemma_div_multiples_vanish(rq as int, ei);
                lemma_div_multiples_vanish(-(rq as int), ei);
                assert(ei * (rq as int) == (rq as int) * ei) by (nonlinear_arith);
                assert(ei * (-(rq as int)) == -((rq as int) * ei)) by (nonlinear_arith);
                assert(q + 1 <= i128::MAX) by {
                    assert(ni / ei <= ni / 2) by {
                        lemma_div_is_ordered_by_denominator_local(ni, 2, ei);
                    };
                };
            }
            if mantissa < 0 {
                Some(Dec { units: -(rq as i128) })
            } else {
                Some(Dec { units: rq as i128 })
            }
        }
    }
}

/// The fixed-scale unit count denoted by a `(mantissa, scale)` pair:
/// rescaling is exact up to twelve fractional digits and rounds
/// half-to-even beyond them.
pub open spec fn units_from_parts(m: int, scale: nat) -> int {
    if scale <= 12 {
        m * pow10((12 - scale) as nat)
    } else {
        round_he(m, pow10((scale - 12) as nat)) / pow10((scale - 12) as nat)
    }
}

/// Rounding to a multiple of `m` moves a number by at most `m/2`, and the
/// result is an exact multiple of `m`: the submitted figure is the nearest
/// representable one, never a truncation.
pub proof fn lemma_round_he_close(n: int, m: int)
    requires
        m > 0,
    ensures
        2 * (round_he(n, m) - n) <= m,
        2 * (n - round_he(n, m)) <= m,
        round_he(n, m) % m == 0,
{
    if n >= 0 {
        lemma_round_he_nn_close(n, m);
    } else {
        lemma_round_he_nn_close(-n, m);
        let r = round_he_nn(-n, m);
        vstd::arithmetic::div_mod::lemma_mod_multiples_basic(-(r / m), m);
        assert((-r) == m * (-(r / m))) by {
            vstd::arithmetic::div_mod::lemma_fundamental_div_mod(r, m);
            assert(r % m == 0);
            vstd::arithmetic::mul::lemma_mul_unary_negation(m, r / m);
        };
    }
}

proof fn lemma_round_he_nn_close(n: int, m: int)
    requires
        n >= 0,
        m > 0,
    ensures
        2 * (round_he_nn(n, m) - n) <= m,
        2 * (n - round_he_nn(n, m)) <= m,
        round_he_nn(n, m) % m == 0,
{
    let q = n / m;
    let rem = n % m;
    lemma_fundamental_div_mod(n, m);
    lemma_remainder_lower(n, m);
    lemma_remainder_upper(n, m);
    vstd::arithmetic::div_mod::lemma_mod_multiples_basic(q, m);
    vstd::arithmetic::div_mod::lemma_mod_multiples_basic(q + 1, m);
    assert(q * m == m * q) by (nonlinear_arith);
    assert((q + 1) * m == m * (q + 1)) by (nonlinear_arith);
    assert((q + 1) * m == q * m + m) by (nonlinear_arith);
}

/// Truncating division undoes an exact multiplication: `(x * d) / d == x`.
pub proof fn lemma_tdiv_exact(x: int, d: int)
    requires
        d > 0,
    ensures
        tdiv(x * d, d) == x,
{
    lemma_div_multiples_vanish(x, d);
    assert(d * x == x * d) by (nonlinear_arith);
    if x * d < 0 {
        assert(-(x * d) == (-x) * d) by (nonlinear_arith);
        lemma_div_multiples_vanish(-x, d);
        assert(d * (-x) == (-x) * d) by (nonlinear_arith);
    }
}

/// When `d` divides `a` exactly, `tdiv` recovers the exact quotient relation:
/// `tdiv(a, d) * d == a`.
pub proof fn lemma_tdiv_of_multiple(a: int, d: int)
    requires
        d > 0,
        a % d == 0,
    ensures
        tdiv(a, d) * d == a,
        (tdiv(a, d)) % 1 == 0,
{
    lemma_fundamental_div_mod(a, d);
    if a >= 0 {
        assert(d * (a / d) == (a / d) * d) by (nonlinear_arith);
    } else {
        assert((-a) % d == 0 && (-a) / d == -(a / d)) by {
            vstd::arithmetic::div_mod::lemma_div_by_multiple(-(a / d), d);
            assert(d * (a / d) == (a / d) * d) by (nonlinear_arith);
            assert(-(a / d) * d == -((a / d) * d)) by (nonlinear_arith);
            vstd::arithmetic::div_mod::lemma_mod_multiples_basic(-(a / d), d);
        };
        assert(-((-a) / d) * d == -(((-a) / d) * d)) by (nonlinear_arith);
        assert(d * ((-a) / d) == ((-a) / d) * d) by (nonlinear_arith);
        vstd::arithmetic::div_mod::lemma_fundamental_div_mod(-a, d);
    }
}

proof fn lemma_div_is_ordered_by_denominator_local(x: int, y: int, z: int)
    requires
        x >= 0,
        2 <= y <= z,
    ensures
        x / y >= x / z,
{
    vstd::arithmetic::div_mod::lemma_div_is_ordered_by_denominator(x, y, z);
}

/// Magnitude of an `i128` above the minimum, as a `u128`.
fn mag(x: i128) -> (r: u128)
    requires
        x > i128::MIN,
    ensures
        r as int == if x >= 0 {
            x as int
        } else {
            -(x as int)
        },
{
    if x < 0 {
        (-x) as u128
    } else {
        x as u128
    }
}

/// `10^e` as a `u128`.
fn pow10_u128(e: u32) -> (r: u128)
    requires
        e <= 28,
    ensures
        r as int == pow10(e as nat),
{
    let mut r: u128 = 1;
    let mut i: u32 = 0;
    proof {
        assert(pow10(28) == 10_000_000_000_000_000_000_000_000_000int) by {
            reveal_with_fuel(pow10, 29);
        };
    }
    while i < e
        invariant
            i <= e,
            e <= 28,
            r as int == pow10(i as nat),
            pow10(28) == 10_000_000_000_000_000_000_000_000_000int,
        decreases e - i,
    {
        proof {
            lemma_pow10_increases((i + 1) as nat, 28);
            lemma_pow10_pos(i as nat);
        }
        r = r * 10;
        i = i + 1;
    }
    proof {
        lemma_pow10_pos(e as nat);
    }
    r
}

/// The magnitude of a product is the product of the magnitudes.
proof fn lemma_abs_mul(a: int, b: int)
    ensures
        (if a >= 0 {
            a
        } else {
            -a
        }) * (if b >= 0 {
            b
        } else {
            -b
        }) == if a * b >= 0 {
            a * b
        } else {
            -(a * b)
        },
{
    assert((if a >= 0 {
        a
    } else {
        -a
    }) * (if b >= 0 {
        b
    } else {
        -b
    }) == if a * b >= 0 {
        a * b
    } else {
        -(a * b)
    }) by (nonlinear_arith);
}

/// Relates truncating division of `p` (with `|p| == np`) by positive `d`
/// to euclidean division of the magnitude.
proof fn lemma_tdiv_by_sign(p: int, np: int, d: int)
    requires
        d > 0,
        np == if p >= 0 {
            p
        } else {
            -p
        },
    ensures
        tdiv(p, d) == if p >= 0 {
            np / d
        } else {
            -(np / d)
        },
{
}

/// Runtime test that the product of two unit counts fits the machine.
pub fn mul_in_range(a: Dec, b: Dec) -> (r: bool)
    ensures
        r == (a.units > i128::MIN && b.units > i128::MIN && mul_fits(
            a.units as int,
            b.units as int,
        )),
{
    if a.units == i128::MIN || b.units == i128::MIN {
        return false;
    }
    if a.units == 0 || b.units == 0 {
        proof {
            assert(a.units as int * b.units as int == 0) by (nonlinear_arith)
                requires
                    a.units == 0 || b.units == 0,
            ;
        }
        return true;
    }
    let na = if a.units < 0 {
        (-a.units) as u128
    } else {
        a.units as u128
    };
    let nb = if b.units < 0 {
        (-b.units) as u128
    } else {
        b.units as u128
    };
    let fits = na <= u128::MAX / nb;
    proof {
        let ai = a.units as int;
        let bi = b.units as int;
        let nai = na as int;
        let nbi = nb as int;
        assert(nai * nbi == if ai * bi >= 0 {
            ai * bi
        } else {
            -(ai * bi)
        }) by (nonlinear_arith)
            requires
                nai == if ai >= 0 {
                    ai
                } else {
                    -ai
                },
                nbi == if bi >= 0 {
                    bi
                } else {
                    -bi
                },
        ;
        assert((nai <= (u128::MAX as int) / nbi) == (nai * nbi <= u128::MAX as int)) by {
            if nai <= (u128::MAX as int) / nbi {
                vstd::arithmetic::div_mod::lemma_fundamental_div_mod(u128::MAX as int, nbi);
                vstd::arithmetic::div_mod::lemma_mod_division_less_than_divisor(
                    u128::MAX as int,
                    nbi,
                );
                vstd::arithmetic::mul::lemma_mul_inequality(nai, (u128::MAX as int) / nbi, nbi);
            } else {
                vstd::arithmetic::div_mod::lemma_fundamental_div_mod(u128::MAX as int, nbi);
                vstd::arithmetic::div_mod::lemma_mod_division_less_than_divisor(
                    u128::MAX as int,
                    nbi,
                );
                assert(nai * nbi > u128::MAX as int) by (nonlinear_arith)
                    requires
                        nai > (u128::MAX as int) / nbi,
                        nbi > 0,
                        (u128::MAX as int) == nbi * ((u128::MAX as int) / nbi) + (u128::MAX as int)
                            % nbi,
                        (u128::MAX as int) % nbi < nbi,
                ;
            }
        };
    }
    fits
}

/// A product at the fixed scale stays within the range that one more
/// multiplication or a final rounding can accept.
pub proof fn lemma_dec_mul_bound(a: int, b: int)
    requires
        mul_fits(a, b),
    ensures
        -340282366920938463463374607 <= dec_mul(a, b) <= 340282366920938463463374607,
{
    let p = a * b;
    let np = if p >= 0 {
        p
    } else {
        -p
    };
    let u = DEC_UNIT as int;
    lemma_div_is_ordered(np, u128::MAX as int, u);
    vstd::arithmetic::div_mod::lemma_div_pos_is_pos(np, u);
    assert((u128::MAX as int) / u == 340282366920938463463374607);
}

/// A quotient at the fixed scale by a divisor of at least the epsilon
/// guard stays within the range that a final rounding can accept.
pub proof fn lemma_dec_div_bound(a: int, b: int)
    requires
        div_fits(a),
        b >= 100000,
    ensures
        -1701411834604692317316873037158841 <= dec_div(a, b) <= 1701411834604692317316873037158841,
{
    let u = DEC_UNIT as int;
    let p = a * u;
    let np = if p >= 0 {
        p
    } else {
        -p
    };
    assert(np <= i128::MAX as int) by {
        if a < 0 {
            assert((-a) * u == -(a * u)) by (nonlinear_arith);
        }
    };
    vstd::arithmetic::div_mod::lemma_div_is_ordered_by_denominator(np, 100000, b);
    lemma_div_is_ordered(np, i128::MAX as int, 100000);
    vstd::arithmetic::div_mod::lemma_div_pos_is_pos(np, b);
    assert((i128::MAX as int) / 100000 == 1701411834604692317316873037158841);
    assert(tdiv(p, b) == if p >= 0 {
        np / b
    } else {
        -(np / b)
    });
    vstd::arithmetic::div_mod::lemma_div_pos_is_pos(np, 100000);
    lemma_div_is_ordered(np / b, np / 100000, 1);
    assert(np / b <= np / 100000);
}

/// Truncating division by a divisor of at least one never grows the
/// magnitude.
pub proof fn lemma_tdiv_le(p: int, d: int)
    requires
        d >= 1,
    ensures
        tdiv(p, d) <= (if p >= 0 {
            p
        } else {
            -p
        }),
        -(if p >= 0 {
            p
        } else {
            -p
        }) <= tdiv(p, d),
{
    if p >= 0 {
        vstd::arithmetic::div_mod::lemma_div_nonincreasing(p, d);
        vstd::arithmetic::div_mod::lemma_div_pos_is_pos(p, d);
    } else {
        vstd::arithmetic::div_mod::lemma_div_nonincreasing(-p, d);
        vstd::arithmetic::div_mod::lemma_div_pos_is_pos(-p, d);
    }
}

/// A nonnegative dividend below `c` multiples of the divisor has a
/// truncating quotient of at most `c`.
pub proof fn lemma_tdiv_ratio(a: int, b: int, c: int)
    requires
        b >= 1,
        0 <= a,
        0 <= c,
        a <= c * b,
    ensures
        0 <= tdiv(a, b) <= c,
{
    assert(c * b == b * c) by (nonlinear_arith);
    vstd::arithmetic::div_mod::lemma_multiply_divide_le(a, b, c);
    vstd::arithmetic::div_mod::lemma_div_pos_is_pos(a, b);
}

} // verus!
