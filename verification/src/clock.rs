//! Instants.
//!
//! A message carries its time on the wire as a floating-point number of seconds.
//! Deadlines are computed in whole microseconds; this module reads one from the
//! other by integer arithmetic on the bit pattern.

use vstd::arithmetic::power2::{lemma_pow2_pos, lemma_pow2_strictly_increases, lemma_pow2_unfold, pow2};
use vstd::prelude::*;

verus! {

/// The significand of a 64-bit pattern, as an integer.
pub open spec fn significand(bits: u64) -> int {
    if exponent_field(bits) == 0 {
        bits as int % 0x10_0000_0000_0000
    } else {
        bits as int % 0x10_0000_0000_0000 + 0x10_0000_0000_0000
    }
}

/// The biased exponent of a 64-bit pattern.
pub open spec fn exponent_field(bits: u64) -> int {
    bits as int / 0x10_0000_0000_0000 % 2048
}

/// The power of two that the significand is scaled by.
pub open spec fn scale(bits: u64) -> int {
    if exponent_field(bits) == 0 {
        -1074
    } else {
        exponent_field(bits) - 1075
    }
}

/// The whole units in a number of seconds, without its sign, where a second has
/// `rate` units: the significand times two to the scale times the rate, rounded down.
pub open spec fn magnitude(bits: u64, rate: int) -> int {
    if scale(bits) >= 0 {
        significand(bits) * rate * pow2(scale(bits) as nat)
    } else {
        significand(bits) * rate / (pow2((-scale(bits)) as nat) as int)
    }
}

/// The whole units in a number of seconds, rounded toward zero and held within the
/// range of an `i64`.  Infinities and patterns that are no number stand at its ends.
pub open spec fn units(bits: u64, rate: int) -> i64 {
    let m = if exponent_field(bits) == 2047 || magnitude(bits, rate) > i64::MAX {
        i64::MAX as int
    } else {
        magnitude(bits, rate)
    };
    if bits >= 0x8000_0000_0000_0000 {
        (-m) as i64
    } else {
        m as i64
    }
}

/// The whole microseconds in a number of seconds.
pub open spec fn micros(bits: u64) -> i64 {
    units(bits, 1_000_000)
}

/// Whether a pattern is no number.
pub open spec fn is_nan(bits: u64) -> bool {
    exponent_field(bits) == 2047 && bits as int % 0x10_0000_0000_0000 != 0
}

/// The whole seconds in a number of seconds; zero in what is no number.
pub open spec fn seconds(bits: u64) -> i64 {
    if is_nan(bits) {
        0
    } else {
        units(bits, 1)
    }
}

/// The whole seconds in some microseconds, rounded toward zero.
pub open spec fn whole_seconds(micros: i64) -> i64 {
    if micros >= 0 {
        (micros as int / 1_000_000) as i64
    } else {
        (-((-(micros as int)) / 1_000_000)) as i64
    }
}

/// The whole seconds in some microseconds, rounded toward zero.
pub fn to_seconds(micros: i64) -> (s: i64)
    ensures
        s == whole_seconds(micros),
{
    if micros >= 0 {
        (micros as u64 / 1_000_000) as i64
    } else {
        let magnitude: u64 = (-(micros as i128)) as u64;
        -((magnitude / 1_000_000) as i64)
    }
}

/// The place of a 64-bit pattern in the order of the numbers that patterns stand for.
pub open spec fn rank(bits: u64) -> int {
    if bits < 0x8000_0000_0000_0000 {
        bits as int
    } else {
        -(bits - 0x8000_0000_0000_0000) - 1
    }
}

/// The place of a 64-bit pattern in the order of the numbers that patterns stand for.
pub fn rank_of(bits: u64) -> (r: i64)
    ensures
        r == rank(bits),
{
    if bits < 0x8000_0000_0000_0000 {
        bits as i64
    } else {
        -((bits - 0x8000_0000_0000_0000) as i64) - 1
    }
}

/// Two to the `n`.
fn power_of_two(n: u32) -> (p: u128)
    requires
        n < 127,
    ensures
        p == pow2(n as nat),
        p > 0,
{
    let mut p: u128 = 1;
    let mut i: u32 = 0;
    proof {
        vstd::arithmetic::power2::lemma2_to64();
    }
    while i < n
        invariant
            i <= n < 127,
            p == pow2(i as nat),
            p > 0,
        decreases n - i,
    {
        proof {
            lemma_pow2_unfold((i + 1) as nat);
            lemma_pow2_below_127((i + 1) as nat);
        }
        p = p * 2;
        i = i + 1;
    }
    p
}

proof fn lemma_pow2_below_127(n: nat)
    requires
        n < 127,
    ensures
        pow2(n) < 0x8000_0000_0000_0000_0000_0000_0000_0000,
{
    lemma_pow2_strictly_increases(n, 127);
    vstd::arithmetic::power2::lemma2_to64();
    vstd::arithmetic::power2::lemma2_to64_rest();
    vstd::arithmetic::power2::lemma_pow2_adds(63, 64);
    assert(pow2(63) * pow2(64) == 0x8000_0000_0000_0000_0000_0000_0000_0000) by (nonlinear_arith)
        requires
            pow2(63) == 0x8000_0000_0000_0000,
            pow2(64) == 0x1_0000_0000_0000_0000,
    ;
}

/// The whole microseconds in a number of seconds given by its bit pattern.
pub fn micros_of(bits: u64) -> (m: i64)
    ensures
        m == micros(bits),
{
    units_of(bits, 1_000_000)
}

/// The whole seconds in a number of seconds given by its bit pattern.
pub fn seconds_of(bits: u64) -> (s: i64)
    ensures
        s == seconds(bits),
{
    if bits / 0x10_0000_0000_0000 % 2048 == 2047 && bits % 0x10_0000_0000_0000 != 0 {
        0
    } else {
        units_of(bits, 1)
    }
}

/// The whole units in a number of seconds given by its bit pattern.
fn units_of(bits: u64, rate: u64) -> (m: i64)
    requires
        1 <= rate <= 1_000_000,
    ensures
        m == units(bits, rate as int),
{
    let field: u64 = bits / 0x10_0000_0000_0000 % 2048;
    let fraction: u64 = bits % 0x10_0000_0000_0000;
    let significand: u128 = if field == 0 {
        fraction as u128
    } else {
        fraction as u128 + 0x10_0000_0000_0000
    };
    proof {
        assert(significand <= significand * rate < 0x20_0000_0000_0000 * 1_000_000)
            by (nonlinear_arith)
            requires
                0 <= significand < 0x20_0000_0000_0000,
                1 <= rate <= 1_000_000,
        ;
    }
    let scaled: u128 = significand * rate as u128;
    let whole: i64 = if field == 2047 {
        i64::MAX
    } else if field >= 1075 {
        let up: u64 = field - 1075;
        if up >= 12 {
            proof {
                assert(scale(bits) == up);
                lemma_pow2_at_least(up as nat);
                assert(magnitude(bits, rate as int) > i64::MAX) by (nonlinear_arith)
                    requires
                        magnitude(bits, rate as int) == scaled * pow2(up as nat),
                        scaled >= 0x10_0000_0000_0000,
                        pow2(up as nat) >= 4096,
                ;
            }
            i64::MAX
        } else {
            let factor: u128 = power_of_two(up as u32);
            proof {
                lemma_pow2_strictly_increases(up as nat, 12);
                vstd::arithmetic::power2::lemma2_to64();
                assert(scaled * factor < 0x8000_0000_0000_0000_0000_0000_0000_0000) by (nonlinear_arith)
                    requires
                        scaled < 0x20_0000_0000_0000 * 1_000_000,
                        factor < 4096,
                ;
            }
            let product: u128 = scaled * factor;
            if product > i64::MAX as u128 {
                i64::MAX
            } else {
                product as i64
            }
        }
    } else {
        let down: u64 = if field == 0 {
            1074
        } else {
            1075 - field
        };
        proof {
            assert(scale(bits) == -(down as int));
        }
        if down >= 74 {
            proof {
                lemma_small_quotient(scaled as int, down as nat);
            }
            0
        } else {
            let divisor: u128 = power_of_two(down as u32);
            let quotient: u128 = scaled / divisor;
            if quotient > i64::MAX as u128 {
                i64::MAX
            } else {
                quotient as i64
            }
        }
    };
    if bits >= 0x8000_0000_0000_0000 {
        -whole
    } else {
        whole
    }
}

proof fn lemma_pow2_at_least(n: nat)
    requires
        n >= 12,
    ensures
        pow2(n) >= 4096,
{
    vstd::arithmetic::power2::lemma2_to64();
    if n > 12 {
        lemma_pow2_strictly_increases(12, n);
    }
}

proof fn lemma_small_quotient(scaled: int, down: nat)
    requires
        0 <= scaled < 0x20_0000_0000_0000 * 1_000_000,
        down >= 74,
    ensures
        scaled / (pow2(down) as int) == 0,
{
    lemma_pow2_pos(down);
    vstd::arithmetic::power2::lemma2_to64();
    vstd::arithmetic::power2::lemma2_to64_rest();
    vstd::arithmetic::power2::lemma_pow2_adds(64, 10);
    assert(pow2(74) > scaled) by (nonlinear_arith)
        requires
            pow2(74) == pow2(64) * pow2(10),
            pow2(64) == 0x1_0000_0000_0000_0000,
            pow2(10) == 1024,
            scaled < 0x20_0000_0000_0000 * 1_000_000,
    ;
    if down > 74 {
        lemma_pow2_strictly_increases(74, down);
    }
    assert(scaled / (pow2(down) as int) == 0) by (nonlinear_arith)
        requires
            0 <= scaled < pow2(down),
    ;
}

/// The instant some seconds after another, held within the range of an `i64`.
pub open spec fn after(instant: i64, seconds: u64) -> i64 {
    let at = instant + seconds * 1_000_000;
    if at > i64::MAX {
        i64::MAX
    } else {
        at as i64
    }
}

/// The instant some seconds after another.
pub fn seconds_after(instant: i64, seconds: u64) -> (at: i64)
    ensures
        at == after(instant, seconds),
{
    let at: i128 = instant as i128 + seconds as i128 * 1_000_000;
    if at > i64::MAX as i128 {
        i64::MAX
    } else {
        at as i64
    }
}

/// The instant some seconds before another, held within the range of an `i64`.
pub open spec fn before(instant: i64, seconds: u64) -> i64 {
    let at = instant - seconds * 1_000_000;
    if at < i64::MIN {
        i64::MIN
    } else {
        at as i64
    }
}

/// The instant some seconds before another.
pub fn seconds_before(instant: i64, seconds: u64) -> (at: i64)
    ensures
        at == before(instant, seconds),
{
    let at: i128 = instant as i128 - seconds as i128 * 1_000_000;
    if at < i64::MIN as i128 {
        i64::MIN
    } else {
        at as i64
    }
}

/// Whether more than some seconds lie between two instants.
pub open spec fn is_past(earlier: i64, now: i64, seconds: u64) -> bool {
    now - earlier > seconds * 1_000_000
}

/// Whether more than some seconds lie between two instants.
pub fn has_passed(earlier: i64, now: i64, seconds: u64) -> (b: bool)
    ensures
        b == is_past(earlier, now, seconds),
{
    now as i128 - earlier as i128 > seconds as i128 * 1_000_000
}

// ---------------------------------------------------------------------------
// How instants lie.
// ---------------------------------------------------------------------------

/// So many seconds after an instant, that many seconds have passed and no more; where the clock
/// ends, time stands still.  Going back leads to where one came from.
pub proof fn seconds_pass(instant: i64, seconds: u64, now: i64)
    ensures
        after(instant, seconds) >= instant,
        before(instant, seconds) <= instant,
        after(instant, seconds) < i64::MAX ==> after(instant, seconds) - instant == seconds
            * 1_000_000 && before(after(instant, seconds), seconds) == instant,
        before(instant, seconds) > i64::MIN ==> instant - before(instant, seconds) == seconds
            * 1_000_000 && after(before(instant, seconds), seconds) == instant,
        instant + seconds * 1_000_000 >= i64::MAX ==> after(instant, seconds) == i64::MAX,
        instant - seconds * 1_000_000 <= i64::MIN ==> before(instant, seconds) == i64::MIN,
        instant + seconds * 1_000_000 <= i64::MAX ==> (is_past(instant, now, seconds) <==> now
            > after(instant, seconds)),
        instant + seconds * 1_000_000 > i64::MAX ==> !is_past(instant, now, seconds),
{
}

/// Whole seconds leave less than a second over, and go the same way for times before the epoch.
pub proof fn seconds_are_whole(micros: i64)
    ensures
        micros >= 0 ==> whole_seconds(micros) * 1_000_000 <= micros < whole_seconds(micros)
            * 1_000_000 + 1_000_000,
        micros > i64::MIN ==> whole_seconds((-micros) as i64) == -whole_seconds(micros),
{
}

/// The parts of a pattern are its digits, with the leading one that is not written, and the power
/// of two that its exponent field stands for.
pub proof fn patterns_have_their_parts(bits: u64, field: int, fraction: int)
    requires
        0 <= field < 2048,
        0 <= fraction < 0x10_0000_0000_0000,
        bits == field * 0x10_0000_0000_0000 + fraction || bits == 0x8000_0000_0000_0000 + field
            * 0x10_0000_0000_0000 + fraction,
    ensures
        exponent_field(bits) == field,
        0 < field ==> significand(bits) == 0x10_0000_0000_0000 + fraction && scale(bits) == field
            - 1023 - 52,
        field == 0 ==> significand(bits) == fraction && scale(bits) == 1 - 1023 - 52,
        is_nan(bits) <==> field == 2047 && fraction != 0,
{
}

/// The whole units in a number are as many as fit into it, and the opposite of a number has the
/// opposite of its units.
pub proof fn units_fit_into_the_number(bits: u64, rate: int)
    requires
        bits < 0x8000_0000_0000_0000,
        rate > 0,
    ensures
        scale(bits) < 0 ==> magnitude(bits, rate) * pow2((-scale(bits)) as nat) <= significand(bits)
            * rate < (magnitude(bits, rate) + 1) * pow2((-scale(bits)) as nat),
        scale(bits) >= 0 ==> magnitude(bits, rate) == significand(bits) * rate * pow2(
            scale(bits) as nat,
        ),
        exponent_field(bits) < 2047 && magnitude(bits, rate) <= i64::MAX ==> units(bits, rate)
            == magnitude(bits, rate),
        exponent_field(bits) == 2047 || magnitude(bits, rate) > i64::MAX ==> units(bits, rate)
            == i64::MAX,
        units((bits + 0x8000_0000_0000_0000) as u64, rate) == -units(bits, rate),
        seconds(bits) == (if is_nan(bits) {
            0
        } else {
            units(bits, 1)
        }),
        micros(bits) == units(bits, 1_000_000),
{
    let opposite = (bits + 0x8000_0000_0000_0000) as u64;
    assert(exponent_field(opposite) == exponent_field(bits));
    assert(opposite as int % 0x10_0000_0000_0000 == bits as int % 0x10_0000_0000_0000);
    assert(magnitude(opposite, rate) == magnitude(bits, rate));
    assert(significand(bits) * rate >= 0) by (nonlinear_arith)
        requires
            significand(bits) >= 0,
            rate > 0,
    ;
    if scale(bits) < 0 {
        let p = pow2((-scale(bits)) as nat) as int;
        lemma_pow2_pos((-scale(bits)) as nat);
        let x = significand(bits) * rate;
        assert(x / p >= 0 && (x / p) * p <= x < (x / p + 1) * p) by (nonlinear_arith)
            requires
                p > 0,
                x >= 0,
        ;
    } else {
        lemma_pow2_pos(scale(bits) as nat);
        assert(magnitude(bits, rate) >= 0) by (nonlinear_arith)
            requires
                magnitude(bits, rate) == (significand(bits) * rate) * pow2(scale(bits) as nat),
                significand(bits) * rate >= 0,
                pow2(scale(bits) as nat) > 0,
        ;
    }
}

/// Patterns rank as the numbers do: those of one sign by their size, and the negative ones
/// before the others.
pub proof fn patterns_rank_as_numbers(a: u64, b: u64)
    ensures
        a < 0x8000_0000_0000_0000 && b < 0x8000_0000_0000_0000 ==> (rank(a) < rank(b) <==> a < b),
        a >= 0x8000_0000_0000_0000 && b >= 0x8000_0000_0000_0000 ==> (rank(a) < rank(b) <==> a > b),
        a >= 0x8000_0000_0000_0000 && b < 0x8000_0000_0000_0000 ==> rank(a) < rank(b),
        rank(a) == rank(b) <==> a == b,
{
}

} // verus!
