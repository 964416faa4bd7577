//! Single-precision numbers held as their bit patterns.
//!
//! Raw class scores and the percentages derived from them are IEEE-754
//! binary32 data. This module carries such a datum as the 32 bits that encode
//! it and does the two things the ranker needs with it exactly: multiplying by
//! a whole number with round-to-nearest, ties-to-even, and asking whether the
//! nearest whole number is above zero.
//!
//! Every finite magnitude is a whole multiple of 2^-149, the smallest
//! subnormal. The model therefore measures magnitudes in that unit, as natural
//! numbers, and no fractions are needed.

use vstd::prelude::*;
use vstd::arithmetic::power2::*;

verus! {

/// Width of the fraction field: the fraction is below 2^23.
pub const FRACTION_RANGE: u32 = 0x0080_0000;

/// The sign bit.
pub const SIGN_BIT: u32 = 0x8000_0000;

/// The bit that tells a quiet NaN from a signalling one.
pub const QUIET_BIT: u32 = 0x0040_0000;

/// Bit pattern of positive infinity.
pub const INFINITY_BITS: u32 = 0x7F80_0000;

/// Bit pattern of one half.
pub const HALF_BITS: u32 = 0x3F00_0000;

/// Bit pattern of one.
pub const ONE_BITS: u32 = 0x3F80_0000;

/// Bit pattern of one hundred.
pub const HUNDRED_BITS: u32 = 0x42C8_0000;

/// An IEEE-754 binary32 datum, held as the 32 bits that encode it.
#[derive(Clone, Copy, Debug, PartialEq, Eq, Structural)]
pub struct Binary32 {
    pub bits: u32,
}

/// How far apart two integers are.
pub open spec fn distance(a: int, b: int) -> int {
    if a >= b {
        a - b
    } else {
        b - a
    }
}

/// Twice the least magnitude that rounds to infinity: the largest finite
/// magnitude plus half of its last place, in units of 2^-149, doubled.
pub open spec fn overflow_bound() -> nat {
    (0x1FF_FFFF * pow2(253)) as nat
}

impl Binary32 {
    /// The sign bit is set.
    pub open spec fn negative(self) -> bool {
        self.bits >= SIGN_BIT
    }

    /// The eight-bit exponent field.
    pub open spec fn exponent_field(self) -> nat {
        ((self.bits / FRACTION_RANGE) % 256) as nat
    }

    /// The 23-bit fraction field.
    pub open spec fn fraction(self) -> nat {
        (self.bits % FRACTION_RANGE) as nat
    }

    /// The datum is no number.
    pub open spec fn is_nan(self) -> bool {
        self.exponent_field() == 255 && self.fraction() != 0
    }

    /// The datum is an infinity.
    pub open spec fn is_infinite(self) -> bool {
        self.exponent_field() == 255 && self.fraction() == 0
    }

    /// The datum is a number: zero, subnormal or normal.
    pub open spec fn is_finite(self) -> bool {
        self.exponent_field() < 255
    }

    /// The significand as a whole number: the fraction, with the hidden bit
    /// in front unless the datum is subnormal.
    pub open spec fn significand(self) -> nat {
        if self.exponent_field() == 0 {
            self.fraction()
        } else {
            FRACTION_RANGE as nat + self.fraction()
        }
    }

    /// The power of two by which the significand is multiplied to give the
    /// magnitude in units of 2^-149.
    pub open spec fn shift(self) -> nat {
        if self.exponent_field() == 0 {
            0
        } else {
            (self.exponent_field() - 1) as nat
        }
    }

    /// The magnitude in units of 2^-149. Infinity gets 2^277, which is above
    /// every finite magnitude; of a NaN the number means nothing.
    pub open spec fn magnitude(self) -> nat {
        self.significand() * pow2(self.shift())
    }

    /// The value in units of 2^-149, for a datum that is not a NaN.
    pub open spec fn value(self) -> int {
        if self.negative() {
            -(self.magnitude() as int)
        } else {
            self.magnitude() as int
        }
    }

    /// `self` is what rounding to nearest, ties to even, makes of the exact
    /// magnitude `x` (in units of 2^-149) under the given sign.
    ///
    /// At or above the overflow bound that is infinity. Below it, it is a
    /// finite datum that no finite datum beats in closeness to `x`; and where
    /// another one is exactly as close, the one with the even significand.
    pub open spec fn is_rounding_of(self, x: nat, negative: bool) -> bool {
        &&& self.negative() == negative
        &&& if 2 * x >= overflow_bound() {
            self.is_infinite()
        } else {
            &&& self.is_finite()
            &&& forall|y: Binary32| #[trigger]
                y.is_finite() ==> distance(self.magnitude() as int, x as int) <= distance(
                    y.magnitude() as int,
                    x as int,
                )
            &&& forall|y: Binary32|
                #[trigger] y.is_finite() && y.magnitude() != self.magnitude() && distance(
                    y.magnitude() as int,
                    x as int,
                ) == distance(self.magnitude() as int, x as int) ==> self.significand() % 2 == 0
        }
    }

    /// What multiplying by the whole number `k` gives: a NaN stays the NaN
    /// it was, made quiet; infinity stays; a finite datum gives the exact
    /// product rounded to nearest, ties to even.
    pub open spec fn is_product_of(self, factor: Binary32, k: nat) -> bool {
        if factor.is_nan() {
            self.bits == if factor.fraction() >= QUIET_BIT {
                factor.bits
            } else {
                (factor.bits + QUIET_BIT) as u32
            }
        } else if factor.is_infinite() {
            self == factor
        } else {
            self.is_rounding_of(k * factor.magnitude(), factor.negative())
        }
    }

    /// The datum that multiplying by the whole number `k` gives.
    pub open spec fn product(self, k: nat) -> Binary32 {
        choose|r: Binary32| r.is_product_of(self, k)
    }

    /// The same datum without its sign.
    pub open spec fn abs(self) -> Binary32 {
        Binary32 { bits: (self.bits % SIGN_BIT) as u32 }
    }

    /// Rounding to the nearest whole number, halves away from zero, gives a
    /// number above zero: the datum is no NaN, is positive, and is at least
    /// one half.
    pub open spec fn rounds_above_zero(self) -> bool {
        &&& !self.is_nan()
        &&& !self.negative()
        &&& 2 * self.magnitude() >= pow2(149)
    }
}

/// The whole number `n` in units of 2^-149.
pub open spec fn whole(n: nat) -> int {
    (n * pow2(149)) as int
}

/// The multiple of `unit` nearest to `p`, counted in units, halves going to
/// the even neighbour.
spec fn round_half_even(p: nat, unit: nat) -> nat {
    let q = p / unit;
    let rem = p % unit;
    if 2 * rem > unit || (2 * rem == unit && q % 2 == 1) {
        q + 1
    } else {
        q
    }
}

/// No datum lies strictly between two neighbouring multiples of a power of
/// two, once the lower multiplier has the full width of a significand.
proof fn lemma_between_multiples(y: Binary32, m: nat, e: nat)
    requires
        !y.is_nan(),
        m >= FRACTION_RANGE,
    ensures
        y.magnitude() <= m * pow2(e) || y.magnitude() >= (m + 1) * pow2(e),
{
    let s = y.significand();
    let t = y.shift();
    let pe = pow2(e);
    let pt = pow2(t);
    lemma_pow2_pos(e);
    lemma_pow2_pos(t);
    assert(s < 2 * FRACTION_RANGE);
    if t >= e {
        let w = pow2((t - e) as nat);
        lemma_pow2_adds((t - e) as nat, e);
        let n = s * w;
        assert(s * pt == n * pe) by (nonlinear_arith)
            requires
                pt == w * pe,
                n == s * w,
        ;
        if n <= m {
            assert(n * pe <= m * pe) by (nonlinear_arith)
                requires
                    n <= m,
                    pe > 0,
            ;
        } else {
            assert(n * pe >= (m + 1) * pe) by (nonlinear_arith)
                requires
                    n >= m + 1,
                    pe > 0,
            ;
        }
    } else {
        lemma_pow2_unfold(t + 1);
        if t + 1 < e {
            lemma_pow2_strictly_increases(t + 1, e);
        }
        assert(2 * pt <= pe);
        assert(s * pt <= m * pe) by (nonlinear_arith)
            requires
                s < 2 * 0x80_0000,
                m >= 0x80_0000,
                2 * pt <= pe,
                pt > 0,
        ;
    }
}

/// The rounded multiple is at least as close to the exact product as any
/// datum, and where a different datum is exactly as close, the rounded
/// multiplier is even.
proof fn lemma_round_beats(y: Binary32, g: nat, d: nat, p: nat)
    requires
        !y.is_nan(),
        d > 0 ==> p / pow2(d) >= FRACTION_RANGE,
    ensures
        ({
            let x = (p * pow2(g)) as int;
            let q = round_half_even(p, pow2(d));
            let r = (q * pow2(g + d)) as int;
            &&& distance(r, x) <= distance(y.magnitude() as int, x)
            &&& y.magnitude() != r && distance(y.magnitude() as int, x) == distance(r, x) ==> q % 2
                == 0
        }),
{
    let unit = pow2(d);
    let grain = pow2(g);
    let step = pow2(g + d);
    lemma_pow2_pos(d);
    lemma_pow2_pos(g);
    lemma_pow2_adds(d, g);
    assert(step == unit * grain);
    let q0 = p / unit;
    let rem = p % unit;
    vstd::arithmetic::div_mod::lemma_fundamental_div_mod(p as int, unit as int);
    vstd::arithmetic::div_mod::lemma_mod_bound(p as int, unit as int);
    let x = p * grain;
    let lo = q0 * step;
    let hi = (q0 + 1) * step;
    let q = round_half_even(p, unit);
    assert(x == lo + rem * grain && hi == lo + step) by (nonlinear_arith)
        requires
            p == unit * q0 + rem,
            x == p * grain,
            lo == q0 * step,
            hi == (q0 + 1) * step,
            step == unit * grain,
    ;
    if d == 0 {
        vstd::arithmetic::power2::lemma2_to64();
        assert(unit == 1);
        assert(rem == 0);
        assert(rem * grain == 0) by (nonlinear_arith)
            requires
                rem == 0,
        ;
        assert(q == q0);
    } else {
        lemma_between_multiples(y, q0, g + d);
        // Twice the way from the lower multiple, against one step.
        let twice = 2 * rem * grain;
        if 2 * rem > unit {
            assert(twice > step) by (nonlinear_arith)
                requires
                    2 * rem > unit,
                    grain > 0,
                    twice == 2 * rem * grain,
                    step == unit * grain,
            ;
        } else if 2 * rem == unit {
            assert(twice == step) by (nonlinear_arith)
                requires
                    2 * rem == unit,
                    twice == 2 * rem * grain,
                    step == unit * grain,
            ;
        } else {
            assert(twice < step) by (nonlinear_arith)
                requires
                    2 * rem < unit,
                    grain > 0,
                    twice == 2 * rem * grain,
                    step == unit * grain,
            ;
        }
        assert(2 * (x - lo) == twice) by (nonlinear_arith)
            requires
                x == lo + rem * grain,
                twice == 2 * rem * grain,
        ;
    }
    assert(0 <= rem * grain < step) by (nonlinear_arith)
        requires
            0 <= rem < unit,
            grain > 0,
            step == unit * grain,
    ;
    let r = q * step;
    assert(r == if q == q0 {
        lo
    } else {
        hi
    });
}

/// The exact product reaches the overflow bound just when its rounded
/// multiple reaches 2^277.
proof fn lemma_round_overflow(g: nat, d: nat, p: nat)
    requires
        p / pow2(d) < 2 * FRACTION_RANGE,
        d > 0 ==> p / pow2(d) >= FRACTION_RANGE,
        d == 0 ==> p >= FRACTION_RANGE || g == 0,
    ensures
        2 * (p * pow2(g)) >= overflow_bound() <==> round_half_even(p, pow2(d)) * pow2(g + d)
            >= pow2(277),
{
    let unit = pow2(d);
    let grain = pow2(g);
    let e = g + d;
    let step = pow2(e);
    let base = pow2(253);
    lemma_pow2_pos(d);
    lemma_pow2_pos(g);
    lemma_pow2_pos(253);
    lemma_pow2_adds(d, g);
    vstd::arithmetic::power2::lemma2_to64();
    lemma_pow2_adds(24, 253);
    assert(pow2(277) == 0x100_0000 * base);
    let q0 = p / unit;
    let rem = p % unit;
    vstd::arithmetic::div_mod::lemma_fundamental_div_mod(p as int, unit as int);
    vstd::arithmetic::div_mod::lemma_mod_bound(p as int, unit as int);
    let x = p * grain;
    let q = round_half_even(p, unit);
    let r = q * step;
    let lo = q0 * step;
    assert(x == lo + rem * grain) by (nonlinear_arith)
        requires
            p == unit * q0 + rem,
            x == p * grain,
            lo == q0 * step,
            step == unit * grain,
    ;
    assert(rem * grain < step) by (nonlinear_arith)
        requires
            rem < unit,
            grain > 0,
            step == unit * grain,
    ;
    if d == 0 {
        assert(unit == 1 && rem == 0 && q == q0 && q0 == p);
    }
    if e >= 254 {
        lemma_pow2_unfold(254);
        if e > 254 {
            lemma_pow2_strictly_increases(254, e);
        }
        assert(step >= 2 * base);
        assert(q0 >= 0x80_0000);
        assert(lo >= 0x100_0000 * base) by (nonlinear_arith)
            requires
                lo == q0 * step,
                q0 >= 0x80_0000,
                step >= 2 * base,
                base > 0,
        ;
        assert(r >= lo) by (nonlinear_arith)
            requires
                r == q * step,
                lo == q0 * step,
                q >= q0,
                step > 0,
        ;
    } else if e == 253 {
        assert(step == base);
        if q0 <= 0x100_0000 - 2 {
            assert(r <= 0xFF_FFFF * base) by (nonlinear_arith)
                requires
                    r == q * base,
                    q <= 0xFF_FFFF,
                    base > 0,
            ;
            assert(lo <= 0xFF_FFFE * base) by (nonlinear_arith)
                requires
                    lo == q0 * base,
                    q0 <= 0xFF_FFFE,
                    base > 0,
            ;
        } else {
            assert(q0 == 0xFF_FFFF);
            assert(lo == 0xFF_FFFF * base);
            let twice = 2 * rem * grain;
            if 2 * rem >= unit {
                assert(twice >= step) by (nonlinear_arith)
                    requires
                        2 * rem >= unit,
                        grain > 0,
                        twice == 2 * rem * grain,
                        step == unit * grain,
                ;
                assert(q == 0x100_0000);
                assert(r == 0x100_0000 * base);
            } else {
                assert(twice < step) by (nonlinear_arith)
                    requires
                        2 * rem < unit,
                        grain > 0,
                        twice == 2 * rem * grain,
                        step == unit * grain,
                ;
                assert(q == q0);
                assert(r == 0xFF_FFFF * base);
            }
            assert(2 * x == 2 * lo + twice) by (nonlinear_arith)
                requires
                    x == lo + rem * grain,
                    twice == 2 * rem * grain,
            ;
        }
    } else {
        lemma_pow2_unfold(253);
        if e < 252 {
            lemma_pow2_strictly_increases(e, 252);
        }
        assert(2 * step <= base);
        assert(r <= 0x80_0000 * base) by (nonlinear_arith)
            requires
                r == q * step,
                q <= 0x100_0000,
                2 * step <= base,
                step > 0,
        ;
        assert(lo + step <= 0x80_0000 * base) by (nonlinear_arith)
            requires
                lo == q0 * step,
                q0 < 0x100_0000,
                2 * step <= base,
                step > 0,
        ;
    }
}

/// A multiplier of at most 2^24 on a step of 2^e reaches 2^277 just when the
/// step is 2^254 or more, or the step is 2^253 and the multiplier is 2^24.
proof fn lemma_reaches_infinity(q: nat, e: nat)
    requires
        FRACTION_RANGE <= q <= 2 * FRACTION_RANGE,
    ensures
        q * pow2(e) >= pow2(277) <==> e >= 254 || (e == 253 && q == 2 * FRACTION_RANGE),
{
    let step = pow2(e);
    let base = pow2(253);
    lemma_pow2_pos(e);
    lemma_pow2_pos(253);
    vstd::arithmetic::power2::lemma2_to64();
    lemma_pow2_adds(24, 253);
    assert(pow2(277) == 0x100_0000 * base);
    if e >= 254 {
        lemma_pow2_unfold(254);
        if e > 254 {
            lemma_pow2_strictly_increases(254, e);
        }
        assert(q * step >= 0x100_0000 * base) by (nonlinear_arith)
            requires
                q >= 0x80_0000,
                step >= 2 * base,
                base > 0,
        ;
    } else if e == 253 {
        if q == 2 * FRACTION_RANGE {
        } else {
            assert(q * base < 0x100_0000 * base) by (nonlinear_arith)
                requires
                    q < 0x100_0000,
                    base > 0,
            ;
        }
    } else {
        lemma_pow2_unfold(253);
        if e < 252 {
            lemma_pow2_strictly_increases(e, 252);
        }
        assert(q * step < 0x100_0000 * base) by (nonlinear_arith)
            requires
                q <= 0x100_0000,
                2 * step <= base,
                step > 0,
        ;
    }
}

/// A datum that carries the rounded multiple is the rounding of the exact
/// product.
proof fn lemma_product_rounds(r: Binary32, negative: bool, g: nat, d: nat, p: nat)
    requires
        p / pow2(d) < 2 * FRACTION_RANGE,
        d > 0 ==> p / pow2(d) >= FRACTION_RANGE,
        d == 0 ==> p >= FRACTION_RANGE || g == 0,
        r.negative() == negative,
        ({
            let q = round_half_even(p, pow2(d));
            if q * pow2(g + d) >= pow2(277) {
                r.is_infinite()
            } else {
                r.is_finite() && r.magnitude() == q * pow2(g + d) && r.significand() % 2 == q % 2
            }
        }),
    ensures
        r.is_rounding_of(p * pow2(g), negative),
{
    let x = p * pow2(g);
    let q = round_half_even(p, pow2(d));
    lemma_round_overflow(g, d, p);
    if 2 * x < overflow_bound() {
        assert forall|y: Binary32| #[trigger] y.is_finite() implies distance(
            r.magnitude() as int,
            x as int,
        ) <= distance(y.magnitude() as int, x as int) by {
            lemma_round_beats(y, g, d, p);
        }
        assert forall|y: Binary32|
            #[trigger] y.is_finite() && y.magnitude() != r.magnitude() && distance(
                y.magnitude() as int,
                x as int,
            ) == distance(r.magnitude() as int, x as int) implies r.significand() % 2 == 0 by {
            lemma_round_beats(y, g, d, p);
        }
    }
}

/// The datum of the given sign whose magnitude is `q` times 2^`e`, for a
/// significand `q` of at most 2^24: a significand of 2^24 moves up to the
/// next shift, and what passes the last finite shift is infinity.
spec fn assembled(negative: bool, q: nat, e: nat) -> Binary32 {
    let sign: nat = if negative {
        SIGN_BIT as nat
    } else {
        0
    };
    let rest: nat = if q < FRACTION_RANGE {
        q
    } else if q == 2 * FRACTION_RANGE {
        if e >= 253 {
            INFINITY_BITS as nat
        } else {
            ((e + 2) * FRACTION_RANGE) as nat
        }
    } else if e >= 254 {
        INFINITY_BITS as nat
    } else {
        ((e + 1) * FRACTION_RANGE + (q - FRACTION_RANGE)) as nat
    };
    Binary32 { bits: (sign + rest) as u32 }
}

/// What `assembled` puts together has the sign, and the magnitude where that
/// is finite.
proof fn lemma_assembled(negative: bool, q: nat, e: nat)
    requires
        q <= 2 * FRACTION_RANGE,
        q < FRACTION_RANGE ==> e == 0,
    ensures
        ({
            let r = assembled(negative, q, e);
            &&& r.negative() == negative
            &&& if q * pow2(e) >= pow2(277) {
                r.is_infinite()
            } else {
                r.is_finite() && r.magnitude() == q * pow2(e) && r.significand() % 2 == q % 2
            }
        }),
{
    let r = assembled(negative, q, e);
    if q >= FRACTION_RANGE {
        lemma_reaches_infinity(q, e);
    } else {
        vstd::arithmetic::power2::lemma2_to64();
        lemma_pow2_strictly_increases(23, 277);
    }
    lemma_pow2_unfold(e + 1);
    if q < FRACTION_RANGE {
        assert(r.significand() == q && r.shift() == 0);
    } else if q == 2 * FRACTION_RANGE {
        if e < 253 {
            assert((e + 2) * FRACTION_RANGE == (e + 2) * 0x80_0000);
            assert(r.exponent_field() == e + 2 && r.fraction() == 0);
            assert(r.significand() == FRACTION_RANGE && r.shift() == e + 1);
            assert(r.magnitude() == q * pow2(e)) by (nonlinear_arith)
                requires
                    r.magnitude() == 0x80_0000 * pow2(e + 1),
                    pow2(e + 1) == 2 * pow2(e),
                    q == 0x100_0000,
            ;
        }
    } else if e < 254 {
        assert((e + 1) * FRACTION_RANGE == (e + 1) * 0x80_0000);
        assert(r.exponent_field() == e + 1 && r.fraction() == q - FRACTION_RANGE);
        assert(r.significand() == q && r.shift() == e);
    }
}

/// How many low bits a number has beyond the twenty-four of a significand.
spec fn excess(p: nat) -> nat
    decreases p,
{
    if p < 2 * FRACTION_RANGE {
        0
    } else {
        1 + excess(p / 2)
    }
}

/// Without its excess bits a number fits a significand, and fills it where
/// there were any.
proof fn lemma_excess(p: nat)
    ensures
        p / pow2(excess(p)) < 2 * FRACTION_RANGE,
        excess(p) > 0 ==> p / pow2(excess(p)) >= FRACTION_RANGE,
    decreases p,
{
    vstd::arithmetic::power2::lemma2_to64();
    if p >= 2 * FRACTION_RANGE {
        let half = p / 2;
        let d = excess(half);
        lemma_excess(half);
        lemma_pow2_unfold(d + 1);
        lemma_pow2_pos(d);
        vstd::arithmetic::div_mod::lemma_div_denominator(p as int, 2, pow2(d) as int);
        assert(pow2(d + 1) == 2 * pow2(d));
        assert(half / pow2(d) == p / pow2(d + 1));
        if d == 0 {
            assert(pow2(0) == 1);
            assert(half / 1 == half);
        }
    } else {
        assert(pow2(0) == 1);
        assert(p / 1 == p);
    }
}

/// Every datum has a product with every whole number of at least one.
pub proof fn lemma_product_exists(f: Binary32, k: nat)
    requires
        k >= 1,
    ensures
        f.product(k).is_product_of(f, k),
{
    if f.is_nan() {
        let r = Binary32 {
            bits: if f.fraction() >= QUIET_BIT {
                f.bits
            } else {
                (f.bits + QUIET_BIT) as u32
            },
        };
        assert(r.is_product_of(f, k));
    } else if f.is_infinite() {
        assert(f.is_product_of(f, k));
    } else {
        let g = f.shift();
        let p = f.significand() * k;
        let d = excess(p);
        let q = round_half_even(p, pow2(d));
        let r = assembled(f.negative(), q, g + d);
        lemma_excess(p);
        assert(p >= f.significand()) by (nonlinear_arith)
            requires
                p == f.significand() * k,
                k >= 1,
        ;
        if d == 0 {
            vstd::arithmetic::power2::lemma2_to64();
            assert(pow2(0) == 1);
            assert(p / 1 == p && p % 1 == 0);
            assert(q == p);
        }
        lemma_assembled(f.negative(), q, g + d);
        lemma_product_rounds(r, f.negative(), g, d, p);
        assert(k * f.magnitude() == p * pow2(g)) by (nonlinear_arith)
            requires
                f.magnitude() == f.significand() * pow2(g),
                p == f.significand() * k,
        ;
        assert(r.is_product_of(f, k));
    }
}

impl Binary32 {
    /// Puts a sign, a significand of at most 2^24 and a shift together.
    fn assemble(sign: u32, q: u64, e: u32) -> (r: Binary32)
        requires
            sign == 0 || sign == SIGN_BIT,
            q <= 2 * FRACTION_RANGE,
            e <= 300,
            q < FRACTION_RANGE ==> e == 0,
        ensures
            r == assembled(sign == SIGN_BIT, q as nat, e as nat),
    {
        if q < FRACTION_RANGE as u64 {
            Binary32 { bits: sign + q as u32 }
        } else if q == 0x100_0000 {
            if e >= 253 {
                Binary32 { bits: sign + INFINITY_BITS }
            } else {
                Binary32 { bits: sign + (e + 2) * FRACTION_RANGE }
            }
        } else if e >= 254 {
            Binary32 { bits: sign + INFINITY_BITS }
        } else {
            Binary32 { bits: sign + (e + 1) * FRACTION_RANGE + (q as u32 - FRACTION_RANGE) }
        }
    }

    /// Multiplies by the whole number `k`, which is at least one, as binary32
    /// arithmetic does: the exact product, rounded to nearest with ties to
    /// even, and infinity where that overflows. A NaN comes back quiet.
    pub fn times(self, k: u32) -> (r: Binary32)
        requires
            k >= 1,
        ensures
            r.is_product_of(self, k as nat),
            r == self.product(k as nat),
    {
        let field: u32 = (self.bits / FRACTION_RANGE) % 256;
        let frac: u32 = self.bits % FRACTION_RANGE;
        if field == 255 {
            let r = if frac == 0 || frac >= QUIET_BIT {
                self
            } else {
                Binary32 { bits: self.bits + QUIET_BIT }
            };
            proof {
                lemma_product_unique(self, k as nat, r, self.product(k as nat));
            }
            return r;
        }
        let sign: u32 = if self.bits >= SIGN_BIT {
            SIGN_BIT
        } else {
            0
        };
        let sig: u64 = if field == 0 {
            frac as u64
        } else {
            (FRACTION_RANGE + frac) as u64
        };
        let g: u32 = if field == 0 {
            0
        } else {
            field - 1
        };
        assert(sig * k <= 0xFF_FFFF * 0xFFFF_FFFF && sig * k >= sig) by (nonlinear_arith)
            requires
                sig <= 0xFF_FFFF,
                1 <= k <= 0xFFFF_FFFF,
        ;
        let p: u64 = sig * (k as u64);
        let mut d: u32 = 0;
        let mut unit: u64 = 1;
        proof {
            vstd::arithmetic::power2::lemma2_to64();
        }
        while p / unit >= 0x100_0000
            invariant
                unit == pow2(d as nat),
                d <= 32,
                unit >= 1,
                p < 0x100_0000_0000_0000,
                d > 0 ==> p >= FRACTION_RANGE * unit,
            decreases 32 - d,
        {
            proof {
                vstd::arithmetic::power2::lemma2_to64();
                if d < 32 {
                    lemma_pow2_strictly_increases(d as nat, 32);
                }
                lemma_pow2_unfold((d + 1) as nat);
                vstd::arithmetic::div_mod::lemma_fundamental_div_mod(p as int, unit as int);
                assert(p >= 0x100_0000 * unit) by (nonlinear_arith)
                    requires
                        p == unit * (p / unit) + (p % unit),
                        p / unit >= 0x100_0000,
                        p % unit >= 0,
                        unit >= 1,
                ;
            }
            unit = unit * 2;
            d = d + 1;
        }
        let q0: u64 = p / unit;
        let rem: u64 = p % unit;
        let up: bool = 2 * rem > unit || (2 * rem == unit && q0 % 2 == 1);
        let q: u64 = if up {
            q0 + 1
        } else {
            q0
        };
        proof {
            if d > 0 {
                vstd::arithmetic::div_mod::lemma_fundamental_div_mod(p as int, unit as int);
                assert(p / unit >= FRACTION_RANGE) by (nonlinear_arith)
                    requires
                        p == unit * (p / unit) + (p % unit),
                        p >= FRACTION_RANGE * unit,
                        0 <= p % unit < unit,
                        unit >= 1,
                ;
            }
            assert(q == round_half_even(p as nat, pow2(d as nat)));
            if q < FRACTION_RANGE {
                assert(d == 0);
                assert(unit == 1);
                assert(p / 1 == p);
                assert(q0 == p);
                assert(field == 0);
            }
        }
        let r = Self::assemble(sign, q, g + d);
        proof {
            lemma_assembled(self.negative(), q as nat, (g + d) as nat);
            let x = k as nat * self.magnitude();
            assert(x == p as nat * pow2(g as nat)) by (nonlinear_arith)
                requires
                    x == k as nat * (sig as nat * pow2(g as nat)),
                    p == sig * k,
            ;
            lemma_product_rounds(r, self.negative(), g as nat, d as nat, p as nat);
            lemma_product_unique(self, k as nat, r, self.product(k as nat));
        }
        r
    }
}

/// Among data that are neither negative nor NaN, the order of the bit
/// patterns is the order of the magnitudes.
pub proof fn lemma_bits_order(a: Binary32, b: Binary32)
    requires
        !a.negative(),
        !b.negative(),
        !a.is_nan(),
        !b.is_nan(),
    ensures
        a.bits <= b.bits <==> a.magnitude() <= b.magnitude(),
        a.bits == b.bits <==> a.magnitude() == b.magnitude(),
{
    if a.bits <= b.bits {
        lemma_bits_order_step(a, b);
    } else {
        lemma_bits_order_step(b, a);
    }
}

/// One direction of the order law: the lower pattern has the lower
/// magnitude, and equal magnitudes come from equal patterns only.
proof fn lemma_bits_order_step(a: Binary32, b: Binary32)
    requires
        !a.negative(),
        !b.negative(),
        a.bits <= b.bits,
    ensures
        a.magnitude() <= b.magnitude(),
        a.bits < b.bits ==> a.magnitude() < b.magnitude(),
{
    let fa = a.exponent_field();
    let fb = b.exponent_field();
    let ga = pow2(a.shift());
    let gb = pow2(b.shift());
    lemma_pow2_pos(a.shift());
    lemma_pow2_pos(b.shift());
    assert(fa <= fb);
    if fa == fb {
        assert(a.significand() * ga <= b.significand() * ga && (a.significand() < b.significand()
            ==> a.significand() * ga < b.significand() * ga)) by (nonlinear_arith)
            requires
                a.significand() <= b.significand(),
                ga > 0,
        ;
    } else if fa == 0 {
        vstd::arithmetic::power2::lemma2_to64();
        assert(ga == 1);
        assert(a.significand() * ga == a.significand()) by (nonlinear_arith)
            requires
                ga == 1,
        ;
        assert(b.significand() * gb >= b.significand()) by (nonlinear_arith)
            requires
                gb >= 1,
        ;
    } else {
        lemma_pow2_unfold(a.shift() + 1);
        if a.shift() + 1 < b.shift() {
            lemma_pow2_strictly_increases(a.shift() + 1, b.shift());
        }
        assert(2 * ga <= gb);
        assert(a.significand() * ga < b.significand() * gb) by (nonlinear_arith)
            requires
                a.significand() < 2 * 0x80_0000,
                b.significand() >= 0x80_0000,
                2 * ga <= gb,
                ga > 0,
        ;
    }
}

impl Binary32 {
    /// Whether rounding to the nearest whole number, halves away from zero,
    /// gives a number above zero.
    pub fn has_positive_rounding(self) -> (b: bool)
        ensures
            b == self.rounds_above_zero(),
    {
        proof {
            let half = Binary32 { bits: HALF_BITS };
            assert(half.significand() == FRACTION_RANGE && half.shift() == 125);
            lemma_pow2_adds(23, 125);
            lemma_pow2_unfold(149);
            vstd::arithmetic::power2::lemma2_to64();
            assert(2 * half.magnitude() == pow2(149));
            if !self.negative() && !self.is_nan() {
                lemma_bits_order(half, self);
            }
        }
        HALF_BITS <= self.bits && self.bits <= INFINITY_BITS
    }
}

/// The next pattern after that of a finite datum without sign is the next
/// datum: one unit of the last place further out.
proof fn lemma_successor(a: Binary32)
    requires
        !a.negative(),
        a.is_finite(),
    ensures
        ({
            let next = Binary32 { bits: (a.bits + 1) as u32 };
            &&& !next.negative()
            &&& !next.is_nan()
            &&& next.magnitude() == a.magnitude() + pow2(a.shift())
            &&& a.significand() % 2 == 0 ==> next.significand() == a.significand() + 1
        }),
{
    let next = Binary32 { bits: (a.bits + 1) as u32 };
    let step = pow2(a.shift());
    lemma_pow2_pos(a.shift());
    vstd::arithmetic::power2::lemma2_to64();
    if a.fraction() + 1 < FRACTION_RANGE {
        assert(next.exponent_field() == a.exponent_field());
        assert(next.significand() == a.significand() + 1);
        assert((a.significand() + 1) * step == a.significand() * step + step)
            by (nonlinear_arith);
    } else {
        assert(next.exponent_field() == a.exponent_field() + 1);
        assert(next.fraction() == 0);
        if a.exponent_field() == 0 {
            assert(next.shift() == 0 && a.shift() == 0);
            assert(next.significand() == a.significand() + 1);
            assert((a.significand() + 1) * step == a.significand() * step + step)
                by (nonlinear_arith);
        } else {
            lemma_pow2_unfold(a.shift() + 1);
            assert(next.shift() == a.shift() + 1);
            assert(next.significand() * pow2(next.shift()) == a.significand() * step + step)
                by (nonlinear_arith)
                requires
                    next.significand() == 0x80_0000,
                    a.significand() == 0xFF_FFFF,
                    pow2(next.shift()) == 2 * step,
            ;
        }
    }
}

/// Dropping the sign leaves the fields, and so the magnitude, as they were.
proof fn lemma_abs(r: Binary32)
    ensures
        !r.abs().negative(),
        r.abs().exponent_field() == r.exponent_field(),
        r.abs().fraction() == r.fraction(),
        r.abs().significand() == r.significand(),
        r.abs().shift() == r.shift(),
        r.abs().magnitude() == r.magnitude(),
        r.abs().bits == if r.negative() {
            (r.bits - SIGN_BIT) as u32
        } else {
            r.bits
        },
{
}

/// Two data that round the same exact magnitude under the same sign are one
/// datum.
pub proof fn lemma_rounding_unique(x: nat, negative: bool, r1: Binary32, r2: Binary32)
    requires
        r1.is_rounding_of(x, negative),
        r2.is_rounding_of(x, negative),
    ensures
        r1 == r2,
{
    let a = r1.abs();
    let b = r2.abs();
    lemma_abs(r1);
    lemma_abs(r2);
    if 2 * x >= overflow_bound() {
        assert(r1.bits == r2.bits);
    } else {
        let m1 = r1.magnitude() as int;
        let m2 = r2.magnitude() as int;
        let d1 = distance(m1, x as int);
        let d2 = distance(m2, x as int);
        assert(r1.is_finite() && r2.is_finite());
        assert(d1 <= d2);
        assert(d2 <= d1);
        if m1 != m2 {
            assert(r1.significand() % 2 == 0);
            assert(r2.significand() % 2 == 0);
            if m1 < m2 {
                lemma_successor(a);
                lemma_pow2_pos(a.shift());
                let next = Binary32 { bits: (a.bits + 1) as u32 };
                lemma_bits_order(a, b);
                assert(next.is_finite());
                lemma_bits_order(next, b);
                assert(d1 <= distance(next.magnitude() as int, x as int));
                lemma_between_even(m1, m2, x as int, next.magnitude() as int);
            } else {
                lemma_successor(b);
                lemma_pow2_pos(b.shift());
                let next = Binary32 { bits: (b.bits + 1) as u32 };
                lemma_bits_order(b, a);
                assert(next.is_finite());
                lemma_bits_order(next, a);
                assert(d2 <= distance(next.magnitude() as int, x as int));
                lemma_between_even(m2, m1, x as int, next.magnitude() as int);
            }
        }
        lemma_bits_order(a, b);
    }
}

/// A number that lies above `low`, not above `high`, and no nearer to the
/// middle of the two than they are, is `high`.
proof fn lemma_between_even(low: int, high: int, x: int, between: int)
    requires
        low < high,
        distance(low, x) == distance(high, x),
        low < between <= high,
        distance(low, x) <= distance(between, x),
    ensures
        between == high,
{
}

/// Multiplying a datum by a whole number has one result.
pub proof fn lemma_product_unique(f: Binary32, k: nat, r1: Binary32, r2: Binary32)
    requires
        r1.is_product_of(f, k),
    ensures
        r1 == f.product(k),
        r2.is_product_of(f, k) ==> r1 == r2,
{
    let chosen = f.product(k);
    assert(chosen.is_product_of(f, k));
    if !f.is_nan() && !f.is_infinite() {
        lemma_rounding_unique(k * f.magnitude(), f.negative(), r1, chosen);
        if r2.is_product_of(f, k) {
            lemma_rounding_unique(k * f.magnitude(), f.negative(), r1, r2);
        }
    }
}

/// The patterns of one and of a hundred stand for one and a hundred.
pub proof fn lemma_one_and_hundred()
    ensures
        (Binary32 { bits: ONE_BITS }).value() == whole(1),
        (Binary32 { bits: HUNDRED_BITS }).value() == whole(100),
        (Binary32 { bits: ONE_BITS }).is_finite(),
        (Binary32 { bits: HUNDRED_BITS }).is_finite(),
{
    let one = Binary32 { bits: ONE_BITS };
    let hundred = Binary32 { bits: HUNDRED_BITS };
    vstd::arithmetic::power2::lemma2_to64();
    assert(one.exponent_field() == 127 && one.fraction() == 0);
    assert(hundred.exponent_field() == 133 && hundred.fraction() == 0x48_0000);
    lemma_pow2_adds(23, 126);
    lemma_pow2_adds(6, 126);
    assert(one.magnitude() == 0x80_0000 * pow2(126));
    assert(hundred.magnitude() == 0xC8_0000 * pow2(132));
    assert(0xC8_0000 * pow2(132) == 100 * pow2(149)) by (nonlinear_arith)
        requires
            pow2(132) == 64 * pow2(126),
            pow2(149) == 0x80_0000 * pow2(126),
    ;
}

/// Twice a finite magnitude stays below the overflow bound.
proof fn lemma_finite_below_bound(c: Binary32)
    requires
        c.is_finite(),
    ensures
        2 * c.magnitude() < overflow_bound(),
{
    let step = pow2(c.shift());
    let base = pow2(253);
    lemma_pow2_pos(c.shift());
    if c.shift() < 253 {
        lemma_pow2_strictly_increases(c.shift(), 253);
    }
    assert(2 * (c.significand() * step) < 0x1FF_FFFF * base) by (nonlinear_arith)
        requires
            c.significand() <= 0xFF_FFFF,
            0 < step <= base,
    ;
}

/// Rounding does not pass a datum: the product of a finite datum with a
/// whole number of at least one, where the exact product is not above the
/// magnitude of a finite datum, is finite and not above it either.
pub proof fn lemma_product_stays_below(f: Binary32, k: nat, cap: Binary32)
    requires
        k >= 1,
        f.is_finite(),
        cap.is_finite(),
        k * f.magnitude() <= cap.magnitude(),
    ensures
        f.product(k).is_finite(),
        f.product(k).magnitude() <= cap.magnitude(),
        f.product(k).negative() == f.negative(),
{
    lemma_product_exists(f, k);
    lemma_finite_below_bound(cap);
    let r = f.product(k);
    let x = k * f.magnitude();
    assert(r.is_rounding_of(x, f.negative()));
    assert(distance(r.magnitude() as int, x as int) <= distance(cap.magnitude() as int, x as int));
}

/// Rounding does not lose a number: the product of a finite datum other
/// than zero with a whole number of at least one is not zero.
pub proof fn lemma_product_stays_above_zero(f: Binary32, k: nat)
    requires
        k >= 1,
        f.is_finite(),
        f.magnitude() > 0,
    ensures
        f.product(k).magnitude() > 0,
        f.product(k).negative() == f.negative(),
{
    lemma_product_exists(f, k);
    let r = f.product(k);
    let x = k * f.magnitude();
    assert(x >= 1) by (nonlinear_arith)
        requires
            x == k * f.magnitude(),
            k >= 1,
            f.magnitude() >= 1,
    ;
    assert(r.is_rounding_of(x, f.negative()));
    let least = Binary32 { bits: 1 };
    vstd::arithmetic::power2::lemma2_to64();
    assert(least.is_finite() && least.significand() == 1 && least.shift() == 0);
    assert(least.magnitude() == 1) by (nonlinear_arith)
        requires
            least.magnitude() == least.significand() * pow2(least.shift()),
            least.significand() == 1,
            pow2(least.shift()) == 1,
    ;
    if 2 * x >= overflow_bound() {
        assert(r.significand() >= FRACTION_RANGE);
        lemma_pow2_pos(r.shift());
        assert(r.significand() * pow2(r.shift()) > 0) by (nonlinear_arith)
            requires
                r.significand() > 0,
                pow2(r.shift()) > 0,
        ;
    } else {
        assert(distance(r.magnitude() as int, x as int) <= distance(1, x as int));
    }
}

/// The product of zero with a whole number of at least one is zero.
pub proof fn lemma_product_of_zero(f: Binary32, k: nat)
    requires
        k >= 1,
        f.is_finite(),
        f.magnitude() == 0,
    ensures
        f.product(k).magnitude() == 0,
{
    lemma_product_exists(f, k);
    let r = f.product(k);
    assert(k * f.magnitude() == 0) by (nonlinear_arith)
        requires
            f.magnitude() == 0,
    ;
    assert(r.is_rounding_of(0, f.negative()));
    let zero = Binary32 { bits: 0 };
    assert(zero.is_finite() && zero.significand() == 0);
    assert(zero.magnitude() == 0) by (nonlinear_arith)
        requires
            zero.magnitude() == zero.significand() * pow2(zero.shift()),
            zero.significand() == 0,
    ;
    lemma_pow2_pos(253);
    assert(distance(r.magnitude() as int, 0) <= distance(zero.magnitude() as int, 0));
}

} // verus!
