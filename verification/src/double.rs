//! Double-precision numbers, by their bits.
//!
//! A double is a sign, an exponent and a fraction (IEEE 754 binary64). Read as
//! a number without its sign bit, the bits of a double grow with its
//! magnitude, so doubles are compared as integers. Above the bits of infinity
//! stand the values that are not numbers: they compare with nothing.

use vstd::arithmetic::mul::lemma_mul_inequality;
use vstd::arithmetic::mul::lemma_mul_is_associative;
use vstd::arithmetic::mul::lemma_mul_strict_inequality;
use vstd::arithmetic::power2::lemma2_to64;
use vstd::arithmetic::power2::lemma2_to64_rest;
use vstd::arithmetic::power2::lemma_pow2_adds;
use vstd::arithmetic::power2::lemma_pow2_pos;
use vstd::arithmetic::power2::lemma_pow2_strictly_increases;
use vstd::arithmetic::power2::lemma_pow2_unfold;
use vstd::arithmetic::power2::pow2;
use vstd::prelude::*;

verus! {

/// The sign bit.
pub const SIGN: u64 = 0x8000_0000_0000_0000;

/// The bits of positive infinity.
pub const INFINITY: u64 = 0x7ff0_0000_0000_0000;

/// The first number that needs one more digit than the fraction has.
pub const FRACTION: u64 = 0x10_0000_0000_0000;

/// The bits without the sign.
pub open spec fn magnitude(bits: u64) -> int {
    if bits >= SIGN {
        bits - SIGN
    } else {
        bits as int
    }
}

/// Whether the bits stand for no number.
pub open spec fn is_nan(bits: u64) -> bool {
    magnitude(bits) > INFINITY
}

/// The place of a double among all doubles; both zeros have the place 0.
pub open spec fn rank(bits: u64) -> int {
    if bits >= SIGN {
        -magnitude(bits)
    } else {
        magnitude(bits)
    }
}

/// Whether `a < b` as doubles.
pub open spec fn less(a: u64, b: u64) -> bool {
    !is_nan(a) && !is_nan(b) && rank(a) < rank(b)
}

/// Whether `a == b` as doubles.
pub open spec fn equal(a: u64, b: u64) -> bool {
    !is_nan(a) && !is_nan(b) && rank(a) == rank(b)
}

/// The absolute value of a finite double in units of the smallest one.
pub open spec fn scaled(magnitude: nat) -> nat {
    let exponent = magnitude / FRACTION as nat;
    let fraction = magnitude % FRACTION as nat;
    if exponent == 0 {
        fraction
    } else {
        (fraction + FRACTION as nat) * pow2((exponent - 1) as nat)
    }
}

/// How many binary digits a number has.
pub open spec fn width(n: nat) -> nat
    decreases n,
{
    if n == 0 {
        0
    } else {
        1 + width(n / 2)
    }
}

/// How many units are nearest to `n`; a half goes to the even count.
pub open spec fn nearest_count(n: nat, unit: nat) -> nat {
    let count = n / unit;
    let rest = n % unit;
    if 2 * rest < unit || (2 * rest == unit && count % 2 == 0) {
        count
    } else {
        count + 1
    }
}

/// The 53 leading digits of a number, rounded to the nearest.
pub open spec fn significand(n: nat) -> nat {
    let digits = width(n);
    if digits <= 53 {
        n * pow2((53 - digits) as nat)
    } else {
        nearest_count(n, pow2((digits - 53) as nat))
    }
}

/// The bits of the double nearest to a whole number.
pub open spec fn whole_bits(n: nat) -> nat {
    if n == 0 {
        0
    } else {
        ((1022 + width(n)) * FRACTION + significand(n) - FRACTION) as nat
    }
}

/// The bits of the double nearest to an integer.
pub open spec fn integer_bits(i: int) -> int {
    if i < 0 {
        SIGN + whole_bits((-i) as nat)
    } else {
        whole_bits(i as nat) as int
    }
}

/// The value of the double nearest to a whole number: the number itself where
/// 53 digits hold it.
pub open spec fn nearest(n: nat) -> nat {
    let digits = width(n);
    if digits <= 53 {
        n
    } else {
        nearest_count(n, pow2((digits - 53) as nat)) * pow2((digits - 53) as nat)
    }
}

/// A number with `d` digits lies between two powers of two.
pub proof fn lemma_width(n: nat)
    requires
        n > 0,
    ensures
        width(n) > 0,
        pow2((width(n) - 1) as nat) <= n < pow2(width(n)),
    decreases n,
{
    lemma2_to64();
    if n > 1 {
        lemma_width(n / 2);
        lemma_pow2_unfold(width(n));
        lemma_pow2_unfold((width(n) - 1) as nat);
    } else {
        assert(width(0) == 0);
        assert(width(1) == 1 + width(0));
    }
}

/// Fewer digits than the power of two above.
proof fn lemma_width_at_most(n: nat, digits: nat)
    requires
        n < pow2(digits),
    ensures
        width(n) <= digits,
{
    if n > 0 {
        lemma_width(n);
        if width(n) > digits {
            if digits < width(n) - 1 {
                lemma_pow2_strictly_increases(digits, (width(n) - 1) as nat);
            }
        }
    }
}

/// The significand of a number has 53 digits, or is the next power of two.
pub proof fn lemma_significand(n: nat)
    requires
        n > 0,
    ensures
        FRACTION <= significand(n) <= 2 * FRACTION,
{
    lemma_width(n);
    lemma2_to64();
    lemma2_to64_rest();
    let digits = width(n);
    if digits <= 53 {
        let shift = (53 - digits) as nat;
        lemma_pow2_adds((digits - 1) as nat, shift);
        lemma_pow2_adds(digits, shift);
        lemma_mul_inequality(pow2((digits - 1) as nat) as int, n as int, pow2(shift) as int);
        lemma_mul_inequality(n as int, pow2(digits) as int, pow2(shift) as int);
    } else {
        let shift = (digits - 53) as nat;
        let unit = pow2(shift);
        lemma_pow2_pos(shift);
        lemma_pow2_adds(52, shift);
        lemma_pow2_adds(53, shift);
        let count = n / unit;
        assert(FRACTION <= count < 2 * FRACTION) by (nonlinear_arith)
            requires
                unit > 0,
                count == n / unit,
                FRACTION * unit <= n < 2 * FRACTION * unit,
        ;
    }
}

/// The bits of a double order doubles by their value: of two finite
/// magnitudes the larger one has the larger bits.
pub proof fn law_bits_order_values(a: nat, b: nat)
    requires
        a < b,
    ensures
        scaled(a) < scaled(b),
{
    let unit = FRACTION as nat;
    let (ea, eb) = (a / unit, b / unit);
    let (fa, fb) = (a % unit, b % unit);
    assert(a == ea * unit + fa && b == eb * unit + fb);
    assert(ea <= eb);
    if eb > 0 {
        lemma_pow2_pos((eb - 1) as nat);
    }
    if ea == eb {
        if ea > 0 {
            lemma_mul_strict_inequality(
                (fa + unit) as int,
                (fb + unit) as int,
                pow2((ea - 1) as nat) as int,
            );
        }
    } else {
        lemma_mul_inequality(unit as int, (fb + unit) as int, pow2((eb - 1) as nat) as int);
        if ea == 0 {
            lemma_mul_inequality(1, pow2((eb - 1) as nat) as int, unit as int);
            assert(unit * pow2((eb - 1) as nat) == pow2((eb - 1) as nat) * unit)
                by (nonlinear_arith);
        } else {
            lemma_pow2_pos((ea - 1) as nat);
            lemma_pow2_unfold(ea);
            if ea < eb - 1 {
                lemma_pow2_strictly_increases(ea, (eb - 1) as nat);
            }
            let (pa, pb) = (pow2((ea - 1) as nat), pow2((eb - 1) as nat));
            assert((fa + unit) * pa < unit * pb) by (nonlinear_arith)
                requires
                    fa < unit,
                    2 * pa <= pb,
                    pa > 0,
            ;
        }
    }
}

/// The double nearest to a whole number has the value that rounding to 53
/// digits gives.
pub proof fn law_whole_value(n: nat)
    ensures
        scaled(whole_bits(n)) == nearest(n) * pow2(1074),
{
    let unit = FRACTION as nat;
    if n == 0 {
        assert(width(0) == 0);
        assert(nearest(0) * pow2(1074) == 0) by (nonlinear_arith)
            requires
                nearest(0) == 0,
        ;
    } else {
        lemma_width(n);
        lemma_significand(n);
        let digits = width(n);
        let sig = significand(n);
        let bits = whole_bits(n);
        let high = pow2((1021 + digits) as nat);
        assert(scaled(bits) == sig * high) by {
            if sig < 2 * unit {
                assert(bits / unit == 1022 + digits && bits % unit == sig - unit)
                    by (nonlinear_arith)
                    requires
                        unit == 0x10_0000_0000_0000,
                        bits == (1022 + digits) * unit + (sig - unit),
                        unit <= sig < 2 * unit,
                ;
            } else {
                assert(bits / unit == 1023 + digits && bits % unit == 0) by (nonlinear_arith)
                    requires
                        unit == 0x10_0000_0000_0000,
                        bits == (1022 + digits) * unit + (sig - unit),
                        sig == 2 * unit,
                ;
                lemma_pow2_unfold((1022 + digits) as nat);
                assert(unit * (2 * high) == (2 * unit) * high) by (nonlinear_arith);
            }
        }
        if digits <= 53 {
            let shift = (53 - digits) as nat;
            lemma_pow2_adds(shift, (1021 + digits) as nat);
            lemma_mul_is_associative(n as int, pow2(shift) as int, high as int);
        } else {
            let shift = (digits - 53) as nat;
            lemma_pow2_adds(shift, 1074);
            lemma_mul_is_associative(sig as int, pow2(shift) as int, pow2(1074) as int);
        }
    }
}

/// Rounding a whole number to a double moves it by at most half of the last
/// digit that is kept.
pub proof fn law_nearest_distance(n: nat)
    ensures
        width(n) <= 53 ==> nearest(n) == n,
        width(n) > 53 ==> {
            let unit = pow2((width(n) - 53) as nat);
            -unit <= 2 * (nearest(n) - n) <= unit
        },
{
    if width(n) > 53 {
        let unit = pow2((width(n) - 53) as nat);
        lemma_pow2_pos((width(n) - 53) as nat);
        let count = n / unit;
        let rest = n % unit;
        assert(n == count * unit + rest && rest < unit) by (nonlinear_arith)
            requires
                unit > 0,
                count == n / unit,
                rest == n % unit,
        ;
        assert((count + 1) * unit == count * unit + unit) by (nonlinear_arith);
    }
}

/// Rounding a whole number to a double moves it by no more than a part in 2^53
/// of it, and not at all below 2^53. Halfway between two doubles it takes the
/// even count of the last digit that is kept.
pub proof fn law_nearest_is_near(n: nat)
    ensures
        -n <= (nearest(n) - n) * 0x20_0000_0000_0000 <= n,
        n < 0x20_0000_0000_0000 ==> nearest(n) == n,
        width(n) > 53 ==> {
            let unit = pow2((width(n) - 53) as nat);
            &&& nearest(n) % unit == 0
            &&& 2 * (nearest(n) - n) == unit || 2 * (n - nearest(n)) == unit ==> (nearest(n)
                / unit) % 2 == 0
        },
{
    lemma2_to64();
    lemma2_to64_rest();
    law_nearest_distance(n);
    if n < 0x20_0000_0000_0000 {
        lemma_width_at_most(n, 53);
    }
    if width(n) > 53 {
        let shift = (width(n) - 53) as nat;
        let unit = pow2(shift);
        let moved = nearest(n) - n;
        let count = n / unit;
        let rest = n % unit;
        let taken = nearest_count(n, unit);
        lemma_width(n);
        lemma_pow2_pos(shift);
        lemma_pow2_adds(52, shift);
        assert(-n <= moved * 0x20_0000_0000_0000 <= n) by (nonlinear_arith)
            requires
                -unit <= 2 * moved <= unit,
                unit * 0x10_0000_0000_0000 <= n,
        ;
        assert(n == count * unit + rest && rest < unit) by (nonlinear_arith)
            requires
                unit > 0,
                count == n / unit,
                rest == n % unit,
        ;
        assert((taken * unit) % unit == 0 && (taken * unit) / unit == taken) by (nonlinear_arith)
            requires
                unit > 0,
        ;
        assert((count + 1) * unit == count * unit + unit) by (nonlinear_arith);
    }
}

/// The value that bits stand for, in units of the smallest double; infinity
/// stands above all that is finite.
pub open spec fn value_of(bits: u64) -> int {
    if bits >= 0x8000_0000_0000_0000 {
        -scaled((bits - 0x8000_0000_0000_0000) as nat)
    } else {
        scaled(bits as nat) as int
    }
}

/// Doubles are compared by their values, and what is not a number compares with
/// nothing.
pub proof fn law_doubles_compare(a: u64, b: u64)
    ensures
        ({
            let number = |bits: u64|
                bits <= 0x7ff0_0000_0000_0000 || 0x8000_0000_0000_0000 <= bits
                    <= 0xfff0_0000_0000_0000;
            &&& less(a, b) <==> number(a) && number(b) && value_of(a) < value_of(b)
            &&& equal(a, b) <==> number(a) && number(b) && value_of(a) == value_of(b)
            &&& is_nan(a) <==> !number(a)
        }),
{
    let (m, n) = (magnitude(a) as nat, magnitude(b) as nat);
    if m < n {
        law_bits_order_values(m, n);
    } else if n < m {
        law_bits_order_values(n, m);
    }
    if m > 0 {
        law_bits_order_values(0, m);
    }
    if n > 0 {
        law_bits_order_values(0, n);
    }
    assert(scaled(0) == 0);
}

/// An integer counts as the double nearest to it.
pub proof fn law_integers_count_as_doubles(i: int)
    requires
        -0x8000_0000_0000_0000 <= i < 0x8000_0000_0000_0000,
    ensures
        0 <= integer_bits(i) <= u64::MAX,
        value_of(integer_bits(i) as u64) == (if i < 0 {
            -nearest((-i) as nat)
        } else {
            nearest(i as nat) as int
        }) * pow2(1074),
{
    let n = if i < 0 {
        (-i) as nat
    } else {
        i as nat
    };
    law_whole_value(n);
    if n > 0 {
        lemma2_to64();
        lemma2_to64_rest();
        lemma_width(n);
        lemma_significand(n);
        assert(width(n) <= 64) by {
            lemma_width_at_most(n, 64);
        }
        assert(whole_bits(n) < 0x8000_0000_0000_0000);
    } else {
        assert(i == 0);
    }
    if i < 0 {
        assert((-nearest(n)) * pow2(1074) == -(nearest(n) * pow2(1074))) by (nonlinear_arith);
    }
}

/// A double by its bits.
#[derive(Debug, Clone, Copy, PartialEq, Eq, Structural)]
pub struct Double {
    pub bits: u64,
}

fn magnitude_of(bits: u64) -> (m: u64)
    ensures
        m == magnitude(bits),
{
    if bits >= SIGN {
        bits - SIGN
    } else {
        bits
    }
}

fn power_of_two(exponent: u64) -> (power: u64)
    requires
        exponent <= 62,
    ensures
        power == pow2(exponent as nat),
{
    proof {
        lemma2_to64();
        lemma2_to64_rest();
    }
    let mut power: u64 = 1;
    let mut i: u64 = 0;
    while i < exponent
        invariant
            i <= exponent <= 62,
            power == pow2(i as nat),
            power <= pow2(62),
            pow2(62) == 0x4000_0000_0000_0000,
        decreases exponent - i,
    {
        proof {
            lemma_pow2_unfold((i + 1) as nat);
            if i + 1 < 62 {
                lemma_pow2_strictly_increases((i + 1) as nat, 62);
            }
        }
        power = power * 2;
        i += 1;
    }
    power
}

impl Double {
    /// Whether this double is less than `other`.
    pub fn less(&self, other: &Double) -> (smaller: bool)
        ensures
            smaller == less(self.bits, other.bits),
    {
        let a = magnitude_of(self.bits);
        let b = magnitude_of(other.bits);
        if a > INFINITY || b > INFINITY {
            false
        } else if self.bits >= SIGN {
            if other.bits >= SIGN {
                b < a
            } else {
                a > 0 || b > 0
            }
        } else if other.bits >= SIGN {
            false
        } else {
            a < b
        }
    }

    /// Whether this double equals `other`.
    pub fn same(&self, other: &Double) -> (same: bool)
        ensures
            same == equal(self.bits, other.bits),
    {
        let a = magnitude_of(self.bits);
        let b = magnitude_of(other.bits);
        if a > INFINITY || b > INFINITY {
            false
        } else if (self.bits >= SIGN) == (other.bits >= SIGN) {
            a == b
        } else {
            a == 0 && b == 0
        }
    }

    /// The double nearest to an integer; a tie goes to the even significand.
    pub fn from_integer(i: i64) -> (double: Double)
        ensures
            double.bits == integer_bits(i as int),
    {
        let n: u64 = if i >= 0 {
            i as u64
        } else if i == i64::MIN {
            SIGN
        } else {
            (-i) as u64
        };
        if n == 0 {
            return Double { bits: 0 };
        }
        proof {
            lemma2_to64_rest();
            lemma_width_at_most(n as nat, 64);
        }
        let mut digits: u64 = 0;
        let mut rest: u64 = n;
        while rest > 0
            invariant
                width(n as nat) == digits + width(rest as nat),
                digits + width(rest as nat) <= 64,
            decreases rest,
        {
            rest = rest / 2;
            digits += 1;
        }
        let significand: u64 = if digits <= 53 {
            let power = power_of_two(53 - digits);
            proof {
                lemma_significand(n as nat);
            }
            n * power
        } else {
            let unit = power_of_two(digits - 53);
            proof {
                lemma_pow2_pos((digits - 53) as nat);
            }
            let count = n / unit;
            let left = n % unit;
            if left < unit - left || (left == unit - left && count % 2 == 0) {
                count
            } else {
                proof {
                    lemma_significand(n as nat);
                }
                count + 1
            }
        };
        proof {
            lemma_significand(n as nat);
        }
        let magnitude = (1022 + digits) * FRACTION + (significand - FRACTION);
        if i < 0 {
            Double { bits: SIGN + magnitude }
        } else {
            Double { bits: magnitude }
        }
    }
}

} // verus!
