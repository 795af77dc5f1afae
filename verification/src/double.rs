//! Integers as IEEE 754 double precision numbers.
//!
//! CloudWatch takes its numbers as doubles. Every number that is collected here is an integer, and
//! so is every sum of them, so a double is kept as the integer that it stands for: an `i128` `d`
//! with `is_double(d as int)`. Converting an integer rounds it to the nearest double, ties to even,
//! and adding two doubles rounds their exact sum in the same way.
use vstd::arithmetic::div_mod::{lemma_div_denominator, lemma_fundamental_div_mod, lemma_fundamental_div_mod_converse};
use vstd::arithmetic::power2::{lemma2_to64, lemma_pow2_adds, lemma_pow2_pos, lemma_pow2_strictly_increases, lemma_pow2_unfold, pow2};
use vstd::prelude::*;

verus! {

/// Two to the 53rd: every integer up to this one is a double.
pub const SIGNIFICANDS: u128 = 9007199254740992;

/// The largest integer, up to its sign, that is converted here.
pub const CONVERSION_LIMIT: i128 = 1329227995784915872903807060280344576;

/// A double so large that no 64-bit number, added to it, makes it larger.
pub const SUM_LIMIT: i128 = 83076749736557242056487941267521536;

/// The distance between the doubles around `n`: the least power of two with which `n` has a
/// quotient of at most 53 bits.
pub open spec fn spacing(n: nat) -> nat
    decreases n,
{
    if n < SIGNIFICANDS {
        1
    } else {
        2 * spacing(n / 2)
    }
}

/// The double nearest to `n`; of two that are equally near, the one with an even significand.
pub open spec fn nearest(n: nat) -> nat {
    let step = spacing(n);
    let rest = n % step;
    let below = (n - rest) as nat;
    if 2 * rest < step || (2 * rest == step && (below / step) % 2 == 0) {
        below
    } else {
        below + step
    }
}

/// The integer that a conversion of `n` to a double stands for.
pub open spec fn rounded(n: int) -> int {
    if n >= 0 {
        nearest(n as nat) as int
    } else {
        -(nearest((-n) as nat) as int)
    }
}

/// Whether a double stands for exactly the integer `n`.
pub open spec fn is_double(n: int) -> bool {
    rounded(n) == n
}

/// `spacing(n)` is a power of two that leaves `n` a quotient of 53 bits, or it is one and `n` has
/// fewer bits than that.
proof fn lemma_spacing(n: nat) -> (exponent: nat)
    ensures
        spacing(n) == pow2(exponent),
        spacing(n) >= 1,
        n < SIGNIFICANDS * spacing(n),
        n < SIGNIFICANDS ==> spacing(n) == 1,
        n >= SIGNIFICANDS ==> SIGNIFICANDS * spacing(n) <= 2 * n,
    decreases n,
{
    if n < SIGNIFICANDS {
        lemma2_to64();
        0
    } else {
        let half = lemma_spacing(n / 2);
        lemma_pow2_unfold(half + 1);
        if n / 2 < SIGNIFICANDS {
            assert(spacing(n / 2) == 1);
        }
        half + 1
    }
}

/// The numbers of 53 bits, times a power of two, have that power as their spacing.
proof fn lemma_spacing_of_range(n: nat, exponent: nat)
    requires
        SIGNIFICANDS * pow2(exponent) <= 2 * n,
        n < SIGNIFICANDS * pow2(exponent),
    ensures
        spacing(n) == pow2(exponent),
    decreases exponent,
{
    if exponent == 0 {
        lemma2_to64();
    } else {
        lemma_pow2_unfold(exponent);
        lemma_pow2_pos((exponent - 1) as nat);
        lemma_spacing_of_range(n / 2, (exponent - 1) as nat);
    }
}

/// No number is rounded to more than two to the 52nd times a power of two, if it exceeds that by at
/// most half the power.
proof fn lemma_nearest_capped(n: nat, exponent: nat)
    requires
        exponent > 0,
        2 * n <= SIGNIFICANDS * pow2(exponent) + pow2(exponent),
    ensures
        2 * nearest(n) <= SIGNIFICANDS * pow2(exponent),
{
    let top = pow2(exponent);
    let step = spacing(n);
    let chosen = lemma_spacing(n);
    lemma_pow2_pos(exponent);
    lemma_pow2_unfold(exponent);
    let significand: int = 4503599627370496;
    let cap = significand * top;
    assert(2 * cap == SIGNIFICANDS * top);
    lemma_fundamental_div_mod(n as int, step as int);
    if n >= cap {
        lemma_spacing_of_range(n, exponent);
        lemma_fundamental_div_mod_converse(n as int, top as int, significand, n - cap);
        lemma_fundamental_div_mod_converse(cap, top as int, significand, 0);
        assert(nearest(n) == cap);
    } else if n >= SIGNIFICANDS {
        assert(SIGNIFICANDS * step <= 2 * n < SIGNIFICANDS * top);
        assert(chosen <= exponent) by {
            if chosen > exponent {
                lemma_pow2_strictly_increases(exponent, chosen);
            }
        }
        let factor = pow2((exponent - chosen) as nat);
        lemma_pow2_adds(chosen, (exponent - chosen) as nat);
        let quotient = n as int / step as int;
        let multiple = significand * factor as int;
        assert(cap == step * multiple) by (nonlinear_arith)
            requires
                cap == significand * top,
                top == step * factor,
                multiple == significand * factor as int,
        ;
        assert(quotient < multiple) by (nonlinear_arith)
            requires
                step as int * quotient <= n < step * multiple,
                step >= 1,
        ;
        assert(step * quotient + step <= step * multiple) by (nonlinear_arith)
            requires
                quotient + 1 <= multiple,
                step >= 1,
        ;
        assert(nearest(n) <= cap);
    } else {
        assert(nearest(n) <= cap);
    }
}

/// A sum that has come to at most `SUM_LIMIT` stays there, whatever 64-bit number is added.
pub(crate) proof fn lemma_sum_stays_in_range(sum: int, term: int)
    requires
        -SUM_LIMIT <= sum <= SUM_LIMIT,
        -0x8000_0000_0000_0000 <= term <= 0x8000_0000_0000_0000,
    ensures
        -SUM_LIMIT <= rounded(sum + term) <= SUM_LIMIT,
{
    lemma2_to64();
    let total = sum + term;
    if total >= 0 {
        lemma_nearest_capped(total as nat, 64);
    } else {
        lemma_nearest_capped((-total) as nat, 64);
    }
}

/// A count of readings goes up by one until it has reached two to the 53rd, and then stays there.
pub(crate) proof fn lemma_count_stays_in_range(count: int)
    requires
        0 <= count <= SIGNIFICANDS,
    ensures
        rounded(count + 1) == if count < SIGNIFICANDS {
            count + 1
        } else {
            count
        },
{
    lemma2_to64();
    if count < SIGNIFICANDS {
        law_small_integers_are_exact(count + 1);
    } else {
        lemma_spacing_of_range((count + 1) as nat, 1);
    }
}

/// A 64-bit number stays within 64 bits and a sign when it becomes a double.
pub(crate) proof fn lemma_rounded_word(n: int)
    requires
        -0x8000_0000_0000_0000 <= n <= 0x1_0000_0000_0000_0000,
    ensures
        -0x8000_0000_0000_0000 <= rounded(n) <= 0x1_0000_0000_0000_0000,
        n >= 0 ==> rounded(n) >= 0,
        n <= 0 ==> rounded(n) <= 0,
        n <= 0x8000_0000_0000_0000 ==> rounded(n) <= 0x8000_0000_0000_0000,
{
    lemma2_to64();
    if n < 0 {
        lemma_nearest_capped((-n) as nat, 11);
    } else if n <= 0x8000_0000_0000_0000 {
        lemma_nearest_capped(n as nat, 11);
    } else {
        lemma_nearest_capped(n as nat, 12);
    }
}

/// A conversion is off by at most half the distance between two neighbouring doubles.
pub proof fn law_conversion_is_nearest(n: nat)
    ensures
        2 * rounded(n as int) <= 2 * n + spacing(n),
        2 * rounded(n as int) >= 2 * n - spacing(n),
        rounded(-(n as int)) == -rounded(n as int),
{
    lemma_spacing(n);
}

/// Integers of up to 53 bits become doubles without a loss.
pub proof fn law_small_integers_are_exact(n: int)
    requires
        -SIGNIFICANDS <= n <= SIGNIFICANDS,
    ensures
        is_double(n),
{
    lemma_spacing((SIGNIFICANDS / 2) as nat);
    lemma_spacing(SIGNIFICANDS as nat);
}

/// What a conversion gives is a double: converting it again changes nothing.
pub proof fn law_conversion_is_idempotent(n: int)
    ensures
        is_double(rounded(n)),
{
    let m = if n >= 0 {
        n as nat
    } else {
        (-n) as nat
    };
    lemma_nearest_is_double(m);
}

proof fn lemma_nearest_is_double(n: nat)
    ensures
        nearest(nearest(n)) == nearest(n),
{
    let step = spacing(n);
    let exponent = lemma_spacing(n);
    let d = nearest(n);
    if n >= SIGNIFICANDS {
        lemma_fundamental_div_mod(n as int, step as int);
        let quotient = n as int / step as int;
        let significand = if d <= n {
            quotient
        } else {
            quotient + 1
        };
        assert(d == significand * step) by (nonlinear_arith)
            requires
                d == step * quotient && significand == quotient || d == step * quotient + step && significand
                    == quotient + 1,
        ;
        assert(4503599627370496 <= quotient < SIGNIFICANDS) by (nonlinear_arith)
            requires
                step * quotient <= n < step * quotient + step,
                SIGNIFICANDS * step <= 2 * n,
                n < SIGNIFICANDS * step,
                step >= 1,
        ;
        if significand < SIGNIFICANDS {
            assert(SIGNIFICANDS * step <= 2 * d < 2 * (SIGNIFICANDS * step)) by (nonlinear_arith)
                requires
                    d == significand * step,
                    4503599627370496 <= significand < SIGNIFICANDS,
                    step >= 1,
            ;
            lemma_spacing_of_range(d, exponent);
            lemma_fundamental_div_mod_converse(d as int, step as int, significand, 0);
        } else {
            lemma_pow2_unfold(exponent + 1);
            lemma_spacing_of_range(d, exponent + 1);
            lemma_fundamental_div_mod_converse(d as int, 2 * step as int, 4503599627370496, 0);
        }
    }
}

/// No double lies strictly between two neighbouring multiples of the spacing.
proof fn lemma_no_double_between(n: nat, significand: int, exponent: nat)
    requires
        -SIGNIFICANDS <= significand <= SIGNIFICANDS,
    ensures
        significand * pow2(exponent) <= n - n % spacing(n) || significand * pow2(exponent) >= n - n % spacing(n)
            + spacing(n),
{
    let step = spacing(n);
    let chosen = lemma_spacing(n);
    let double = significand * pow2(exponent);
    let below = n - n % step;
    lemma_pow2_pos(exponent);
    lemma_fundamental_div_mod(n as int, step as int);
    let quotient = n as int / step as int;
    assert(below == step * quotient);
    if exponent >= chosen {
        let factor = pow2((exponent - chosen) as nat);
        lemma_pow2_adds(chosen, (exponent - chosen) as nat);
        let multiple = significand * factor as int;
        assert(double == step * multiple) by (nonlinear_arith)
            requires
                double == significand * pow2(exponent),
                pow2(exponent) == step * factor,
                multiple == significand * factor as int,
        ;
        assert(double <= below || double >= below + step) by (nonlinear_arith)
            requires
                double == step * multiple,
                below == step * quotient,
                step >= 1,
        ;
    } else {
        assert(n >= SIGNIFICANDS) by {
            if n < SIGNIFICANDS {
                lemma2_to64();
                lemma_pow2_strictly_increases(0, chosen);
            }
        }
        let half = pow2((chosen - 1) as nat);
        lemma_pow2_unfold(chosen);
        if exponent < chosen - 1 {
            lemma_pow2_strictly_increases(exponent, (chosen - 1) as nat);
        }
        assert(double <= SIGNIFICANDS * half) by (nonlinear_arith)
            requires
                double == significand * pow2(exponent),
                significand <= SIGNIFICANDS,
                pow2(exponent) <= half,
        ;
        assert(quotient >= 4503599627370496) by (nonlinear_arith)
            requires
                n < step * quotient + step,
                SIGNIFICANDS * step <= 2 * n,
                step >= 1,
        ;
        assert(step * quotient >= SIGNIFICANDS * half) by (nonlinear_arith)
            requires
                quotient >= 4503599627370496,
                step == 2 * half,
        ;
    }
}

/// A multiple of a number is one of its double, or the next one is.
proof fn lemma_even_multiple(step: int, quotient: int)
    requires
        step >= 1,
    ensures
        quotient % 2 == 0 ==> (step * quotient) % (2 * step) == 0,
        quotient % 2 == 1 ==> (step * quotient + step) % (2 * step) == 0,
{
    let half = quotient / 2;
    if quotient % 2 == 0 {
        assert(step * quotient == half * (2 * step)) by (nonlinear_arith)
            requires
                quotient == 2 * half,
        ;
        lemma_fundamental_div_mod_converse(step * quotient, 2 * step, half, 0);
    } else {
        assert(step * quotient + step == (half + 1) * (2 * step)) by (nonlinear_arith)
            requires
                quotient == 2 * half + 1,
        ;
        lemma_fundamental_div_mod_converse(step * quotient + step, 2 * step, half + 1, 0);
    }
}

/// How far two integers are apart.
spec fn distance(a: int, b: int) -> int {
    if a < b {
        b - a
    } else {
        a - b
    }
}

/// No double is nearer, and of two that are equally near the even one is chosen.
proof fn lemma_nearest_is_nearest(n: nat, significand: int, exponent: nat)
    requires
        -SIGNIFICANDS <= significand <= SIGNIFICANDS,
    ensures
        distance(n as int, nearest(n) as int) <= distance(n as int, significand * pow2(exponent)),
        significand * pow2(exponent) != nearest(n) && distance(n as int, nearest(n) as int) == distance(
            n as int,
            significand * pow2(exponent),
        ) ==> nearest(n) as int % (2 * distance(nearest(n) as int, significand * pow2(exponent))) == 0,
{
    let step = spacing(n);
    lemma_spacing(n);
    lemma_no_double_between(n, significand, exponent);
    lemma_fundamental_div_mod(n as int, step as int);
    let quotient = n as int / step as int;
    let below = (n - n % step) as nat;
    lemma_fundamental_div_mod_converse(below as int, step as int, quotient, 0);
    lemma_even_multiple(step as int, quotient);
}

/// A conversion gives a double: an integer of up to 53 bits, and a sign, times a power of two.
pub proof fn law_conversion_gives_a_double(n: int) -> (parts: (int, nat))
    ensures
        -0x20_0000_0000_0000 <= parts.0 <= 0x20_0000_0000_0000,
        rounded(n) == parts.0 * pow2(parts.1),
{
    let m = if n >= 0 {
        n as nat
    } else {
        (-n) as nat
    };
    let step = spacing(m);
    let exponent = lemma_spacing(m);
    lemma_fundamental_div_mod(m as int, step as int);
    let quotient = m as int / step as int;
    let significand = if nearest(m) <= m {
        quotient
    } else {
        quotient + 1
    };
    assert(nearest(m) == significand * step) by (nonlinear_arith)
        requires
            nearest(m) == step * quotient && significand == quotient || nearest(m) == step * quotient + step
                && significand == quotient + 1,
    ;
    assert(0 <= quotient < SIGNIFICANDS) by (nonlinear_arith)
        requires
            0 <= m < SIGNIFICANDS * step,
            step * quotient <= m < step * quotient + step,
            step >= 1,
    ;
    if n >= 0 {
        (significand, exponent)
    } else {
        assert((-significand) * step == -(significand * step)) by (nonlinear_arith);
        (-significand, exponent)
    }
}

/// No double is nearer to an integer than the one that a conversion gives; and of two that are equally
/// near, it gives the one that is an even multiple of the distance between them.
pub proof fn law_conversion_gives_the_nearest_double(n: int, significand: int, exponent: nat)
    requires
        -0x20_0000_0000_0000 <= significand <= 0x20_0000_0000_0000,
    ensures
        ({
            let double = rounded(n);
            let other = significand * pow2(exponent);
            let error = if double < n {
                n - double
            } else {
                double - n
            };
            let other_error = if other < n {
                n - other
            } else {
                other - n
            };
            let gap = if double < other {
                other - double
            } else {
                double - other
            };
            &&& error <= other_error
            &&& double != other && error == other_error ==> double % (2 * gap) == 0
        }),
{
    if n >= 0 {
        lemma_nearest_is_nearest(n as nat, significand, exponent);
    } else {
        let m = (-n) as nat;
        lemma_nearest_is_nearest(m, -significand, exponent);
        assert((-significand) * pow2(exponent) == -(significand * pow2(exponent))) by (nonlinear_arith);
        let gap = distance(rounded(n), significand * pow2(exponent));
        if gap > 0 && nearest(m) as int % (2 * gap) == 0 {
            lemma_fundamental_div_mod(nearest(m) as int, 2 * gap);
            let quotient = nearest(m) as int / (2 * gap);
            assert(rounded(n) == (-quotient) * (2 * gap)) by (nonlinear_arith)
                requires
                    rounded(n) == -((2 * gap) * quotient),
            ;
            lemma_fundamental_div_mod_converse(rounded(n), 2 * gap, -quotient, 0);
        }
    }
}

/// The integer that `n` stands for once it is a double.
pub fn to_double(n: i128) -> (d: i128)
    requires
        -CONVERSION_LIMIT <= n <= CONVERSION_LIMIT,
    ensures
        d == rounded(n as int),
{
    let magnitude: u128 = if n < 0 {
        (-n) as u128
    } else {
        n as u128
    };
    let mut step: u128 = 1;
    while magnitude / step >= SIGNIFICANDS
        invariant
            1 <= step <= CONVERSION_LIMIT,
            magnitude <= CONVERSION_LIMIT,
            spacing(magnitude as nat) == step * spacing((magnitude / step) as nat),
        decreases magnitude / step,
    {
        proof {
            lemma_div_denominator(magnitude as int, step as int, 2);
            lemma_fundamental_div_mod(magnitude as int, step as int);
            let quotient = (magnitude / step) as nat;
            assert(step * quotient >= step * SIGNIFICANDS) by (nonlinear_arith)
                requires
                    quotient >= SIGNIFICANDS,
            ;
            assert(step * (2 * spacing(quotient / 2)) == (step * 2) * spacing(quotient / 2)) by (nonlinear_arith);
        }
        step = step * 2;
    }
    proof {
        lemma_fundamental_div_mod(magnitude as int, step as int);
        assert(step * 1 == step) by (nonlinear_arith);
        lemma_spacing(magnitude as nat);
    }
    let rest: u128 = magnitude % step;
    let below: u128 = magnitude - rest;
    let nearest: u128 = if 2 * rest < step || (2 * rest == step && (below / step) % 2 == 0) {
        below
    } else {
        below + step
    };
    if n < 0 {
        -(nearest as i128)
    } else {
        nearest as i128
    }
}

} // verus!
