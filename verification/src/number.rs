//! Numbers by their bit patterns: a 32-bit floating-point number as the 64-bit one of the
//! same value, by integer arithmetic.

use vstd::arithmetic::power2::{lemma_pow2_unfold, pow2};
use vstd::prelude::*;

use crate::clock::{exponent_field, is_nan, scale, significand};

verus! {

/// The biased exponent of a 32-bit pattern.
pub open spec fn short_exponent_field(bits: u32) -> int {
    bits as int / 0x80_0000 % 256
}

/// The fraction of a 32-bit pattern.
pub open spec fn short_fraction(bits: u32) -> int {
    bits as int % 0x80_0000
}

/// The significand of a 32-bit pattern, as an integer.
pub open spec fn short_significand(bits: u32) -> int {
    if short_exponent_field(bits) == 0 {
        short_fraction(bits)
    } else {
        short_fraction(bits) + 0x80_0000
    }
}

/// The power of two that the significand of a 32-bit pattern is scaled by.
pub open spec fn short_scale(bits: u32) -> int {
    if short_exponent_field(bits) == 0 {
        -149
    } else {
        short_exponent_field(bits) - 150
    }
}

/// How often a fraction is doubled until it has 24 digits.
pub open spec fn doublings(fraction: int) -> nat
    decreases 0x100_0000 - fraction,
{
    if fraction <= 0 || fraction >= 0x80_0000 {
        0
    } else {
        1 + doublings(2 * fraction)
    }
}

/// A fraction, doubled until it has 24 digits.
pub open spec fn doubled(fraction: int) -> int
    decreases 0x100_0000 - fraction,
{
    if fraction <= 0 || fraction >= 0x80_0000 {
        fraction
    } else {
        doubled(2 * fraction)
    }
}

/// The 64-bit pattern of the number that a 32-bit pattern stands for.  What is no number
/// stays none, with its sign and its digits, and is made quiet.
pub open spec fn widened(bits: u32) -> u64 {
    let sign = if bits >= 0x8000_0000 {
        0x8000_0000_0000_0000int
    } else {
        0
    };
    let field = short_exponent_field(bits);
    let fraction = short_fraction(bits);
    let rest = if field == 255 {
        if fraction == 0 {
            0x7ff0_0000_0000_0000
        } else {
            0x7ff8_0000_0000_0000 + fraction % 0x40_0000 * 0x2000_0000
        }
    } else if field > 0 {
        (field + 896) * 0x10_0000_0000_0000 + fraction * 0x2000_0000
    } else if fraction > 0 {
        (897 - doublings(fraction)) * 0x10_0000_0000_0000 + (doubled(fraction) - 0x80_0000)
            * 0x2000_0000
    } else {
        0
    };
    (sign + rest) as u64
}

/// A fraction that is doubled once for each digit it lacks has 24 digits.
proof fn lemma_doubled(fraction: int, n: nat)
    requires
        0 < fraction < 0x80_0000,
        fraction * pow2(n) >= 0x80_0000,
    ensures
        1 <= doublings(fraction) <= n,
        0x80_0000 <= doubled(fraction) < 0x100_0000,
        doubled(fraction) == fraction * pow2(doublings(fraction)),
    decreases n,
{
    vstd::arithmetic::power2::lemma2_to64();
    assert(pow2(0) == 1 && pow2(1) == 2);
    if n > 0 {
        lemma_pow2_unfold(n);
        assert(fraction * pow2(n) == (2 * fraction) * pow2((n - 1) as nat)) by (nonlinear_arith)
            requires
                pow2(n) == 2 * pow2((n - 1) as nat),
        ;
        if 2 * fraction < 0x80_0000 {
            lemma_doubled(2 * fraction, (n - 1) as nat);
            let k = doublings(2 * fraction);
            lemma_pow2_unfold(k + 1);
            assert((2 * fraction) * pow2(k) == fraction * pow2(k + 1)) by (nonlinear_arith)
                requires
                    pow2(k + 1) == 2 * pow2(k),
            ;
        } else {
            reveal_with_fuel(doublings, 2);
            reveal_with_fuel(doubled, 2);
            assert(doublings(fraction) == 1);
            assert(fraction * pow2(1) == 2 * fraction);
        }
    } else {
        assert(fraction * pow2(n) == fraction) by (nonlinear_arith)
            requires
                pow2(n) == 1,
        ;
    }
}

proof fn lemma_digits(fraction: int)
    requires
        0 < fraction < 0x80_0000,
    ensures
        1 <= doublings(fraction) <= 23,
        0x80_0000 <= doubled(fraction) < 0x100_0000,
        doubled(fraction) == fraction * pow2(doublings(fraction)),
{
    vstd::arithmetic::power2::lemma2_to64();
    assert(pow2(23) == 0x80_0000);
    lemma_doubled(fraction, 23);
}

/// The 64-bit pattern of the number that a 32-bit pattern stands for.
pub fn widen(bits: u32) -> (w: u64)
    ensures
        w == widened(bits),
{
    let sign: u64 = if bits >= 0x8000_0000 {
        0x8000_0000_0000_0000
    } else {
        0
    };
    let field: u64 = (bits / 0x80_0000 % 256) as u64;
    let fraction: u64 = (bits % 0x80_0000) as u64;
    if field == 255 {
        if fraction == 0 {
            sign + 0x7ff0_0000_0000_0000
        } else {
            sign + 0x7ff8_0000_0000_0000 + fraction % 0x40_0000 * 0x2000_0000
        }
    } else if field > 0 {
        sign + (field + 896) * 0x10_0000_0000_0000 + fraction * 0x2000_0000
    } else if fraction > 0 {
        let mut f: u64 = fraction;
        let mut n: u64 = 0;
        proof {
            lemma_digits(fraction as int);
        }
        while f < 0x80_0000
            invariant
                0 < f < 0x100_0000,
                n + doublings(f as int) == doublings(fraction as int),
                doubled(f as int) == doubled(fraction as int),
                doublings(fraction as int) <= 23,
            decreases 0x100_0000 - f,
        {
            f = f * 2;
            n = n + 1;
        }
        proof {
            lemma_digits(fraction as int);
        }
        sign + (897 - n) * 0x10_0000_0000_0000 + (f - 0x80_0000) * 0x2000_0000
    } else {
        sign
    }
}

/// A number keeps its sign and its value when it is widened: the significand has more digits
/// and is scaled by as much less.  An infinity stays one, and what is no number stays none.
pub proof fn widening_keeps_the_number(bits: u32)
    ensures
        widened(bits) >= 0x8000_0000_0000_0000 <==> bits >= 0x8000_0000,
        short_exponent_field(bits) == 255 ==> exponent_field(widened(bits)) == 2047 && (is_nan(
            widened(bits),
        ) <==> short_fraction(bits) != 0),
        short_exponent_field(bits) < 255 ==> exponent_field(widened(bits)) < 2047 && exists|s: nat|
            significand(widened(bits)) == short_significand(bits) * #[trigger] pow2(s) && scale(
                widened(bits),
            ) == short_scale(bits) - s,
{
    vstd::arithmetic::power2::lemma2_to64();
    let fraction = short_fraction(bits);
    let field = short_exponent_field(bits);
    if field == 0 && fraction > 0 {
        lemma_digits(fraction);
        let s = (29 + doublings(fraction)) as nat;
        vstd::arithmetic::power2::lemma_pow2_adds(doublings(fraction), 29);
        assert(doubled(fraction) * 0x2000_0000 == fraction * pow2(s)) by (nonlinear_arith)
            requires
                doubled(fraction) == fraction * pow2(doublings(fraction)),
                pow2(s) == pow2(doublings(fraction)) * pow2(29),
                pow2(29) == 0x2000_0000,
        ;
        assert(significand(widened(bits)) == short_significand(bits) * pow2(s));
    } else if field == 0 {
        assert(short_significand(bits) * pow2(925) == 0) by (nonlinear_arith)
            requires
                short_significand(bits) == 0,
        ;
        assert(significand(widened(bits)) == short_significand(bits) * pow2(925));
    } else if field < 255 {
        assert(significand(widened(bits)) == short_significand(bits) * pow2(29));
    }
}

} // verus!
