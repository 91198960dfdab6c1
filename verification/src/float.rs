//! Binary numbers with a floating point, as their bit patterns.
//!
//! Confidences, ratios and type sizes are numbers of single precision. They are
//! held as their bit patterns, so that nothing is lost between a file and the
//! program, and reckoned with exactly: every result is the number nearest to the
//! exact one, the even one of two that are equally near.

use crate::natural;
use crate::natural::{Natural, Side};
use crate::number;
use crate::number::{decimal, decimal_wide};
use crate::text::own;
use vstd::prelude::*;
use vstd::string::StringExecFns;

verus! {

// ---------------------------------------------------------------------------
// The numbers there are
// ---------------------------------------------------------------------------

#[derive(Clone, Copy, PartialEq, Eq, Structural)]
pub enum Format {
    Single,
    Double,
}

/// The weight of the leading bit, which is not written down.
pub open spec fn lead(f: Format) -> nat {
    match f {
        Format::Single => 0x80_0000,
        Format::Double => 0x10_0000_0000_0000,
    }
}

/// The pattern of infinity, beyond all numbers that are not negative.
pub open spec fn top(f: Format) -> nat {
    match f {
        Format::Single => 0x7f80_0000,
        Format::Double => 0x7ff0_0000_0000_0000,
    }
}

/// How many times a unit has to be doubled to make one.
pub open spec fn scale(f: Format) -> nat {
    match f {
        Format::Single => 149,
        Format::Double => 1074,
    }
}

/// What a pattern stands for, in units of the smallest number there is. Infinity
/// stands where the next number would.
pub open spec fn units(f: Format, b: nat) -> nat {
    if b < lead(f) {
        b
    } else {
        (lead(f) + b % lead(f)) * natural::two_to((b / lead(f) - 1) as nat)
    }
}

/// Twice what lies half-way between a number and the one before it.
pub open spec fn half_way(f: Format, b: nat) -> nat {
    units(f, (b - 1) as nat) + units(f, b)
}

/// Whether what is `x` halves of a unit over `den` is rounded to a number or
/// beyond it.
pub open spec fn rises_to(f: Format, x: nat, den: nat, b: nat) -> bool {
    half_way(f, b) * den < x || (half_way(f, b) * den == x && b % 2 == 0)
}

/// Twice a number, in units.
pub open spec fn in_halves(f: Format, num: nat) -> nat {
    2 * num * natural::two_to(scale(f))
}

/// Whether a pattern is that of the number nearest to a fraction, the even one of
/// two that are equally near.
pub open spec fn is_nearest(f: Format, num: nat, den: nat, b: nat) -> bool {
    &&& b <= top(f)
    &&& b > 0 ==> rises_to(f, in_halves(f, num), den, b)
    &&& b < top(f) ==> !rises_to(f, in_halves(f, num), den, b + 1)
}

/// The pattern of the number nearest to a fraction.
pub open spec fn nearest(f: Format, num: nat, den: nat) -> nat {
    choose|b: nat| is_nearest(f, num, den, b)
}

/// Greater patterns stand for greater numbers.
pub proof fn patterns_are_in_order(f: Format, b: nat)
    ensures
        units(f, b) < units(f, b + 1),
{
    let l = lead(f);
    let q = b / l;
    let r = b % l;
    match f {
        Format::Single => {
            assert(b == 0x80_0000 * q + r && r < 0x80_0000);
            if r + 1 < 0x80_0000 {
                assert((b + 1) / 0x80_0000 == q && (b + 1) % 0x80_0000 == r + 1);
            } else {
                assert((b + 1) / 0x80_0000 == q + 1 && (b + 1) % 0x80_0000 == 0);
            }
        },
        Format::Double => {
            assert(b == 0x10_0000_0000_0000 * q + r && r < 0x10_0000_0000_0000);
            if r + 1 < 0x10_0000_0000_0000 {
                assert((b + 1) / 0x10_0000_0000_0000 == q && (b + 1) % 0x10_0000_0000_0000 == r + 1);
            } else {
                assert((b + 1) / 0x10_0000_0000_0000 == q + 1 && (b + 1) % 0x10_0000_0000_0000 == 0);
            }
        },
    }
    if b < l {
        if b + 1 == l {
            assert(natural::two_to(0) == 1);
            assert(l * 1 == l);
        }
    } else {
        let p = natural::two_to((q - 1) as nat);
        natural::lemma_two_to_sum((q - 1) as nat, 0);
        if r + 1 < l {
            assert((l + r) * p < (l + (r + 1)) * p) by (nonlinear_arith)
                requires
                    p > 0,
            ;
        } else {
            assert(natural::two_to(q) == 2 * p);
            assert((l + r) * p < (l + 0) * (2 * p)) by (nonlinear_arith)
                requires
                    p > 0,
                    r + 1 == l,
            ;
        }
    }
}

proof fn lemma_half_ways(f: Format, a: nat, b: nat)
    requires
        0 < a <= b,
    ensures
        half_way(f, a) <= half_way(f, b),
        a < b ==> half_way(f, a) < half_way(f, b),
    decreases b,
{
    if a < b {
        lemma_half_ways(f, a, (b - 1) as nat);
        patterns_are_in_order(f, (b - 1) as nat);
        patterns_are_in_order(f, (b - 2) as nat);
    }
}

proof fn lemma_nearest_order(f: Format, num: nat, den: nat, a: nat, b: nat)
    requires
        den > 0,
        is_nearest(f, num, den, a),
        is_nearest(f, num, den, b),
    ensures
        a >= b,
{
    if a < b {
        let x = in_halves(f, num);
        lemma_half_ways(f, a + 1, b);
        let m = half_way(f, a + 1);
        let n = half_way(f, b);
        assert(rises_to(f, x, den, b) && !rises_to(f, x, den, a + 1));
        assert(m * den <= n * den) by (nonlinear_arith)
            requires
                m <= n,
                den > 0,
        ;
        if a + 1 < b {
            assert(m * den < n * den) by (nonlinear_arith)
                requires
                    m < n,
                    den > 0,
            ;
        }
    }
}

/// There is only one nearest number.
pub proof fn there_is_one_nearest(f: Format, num: nat, den: nat, b: nat)
    requires
        den > 0,
        is_nearest(f, num, den, b),
    ensures
        nearest(f, num, den) == b,
{
    let c = nearest(f, num, den);
    lemma_nearest_order(f, num, den, c, b);
    lemma_nearest_order(f, num, den, b, c);
}

proof fn lemma_settles(f: Format, num: nat, den: nat, b: nat) -> (r: nat)
    requires
        b <= top(f),
        b < top(f) ==> !rises_to(f, in_halves(f, num), den, b + 1),
    ensures
        is_nearest(f, num, den, r),
    decreases b,
{
    if b == 0 || rises_to(f, in_halves(f, num), den, b) {
        b
    } else {
        lemma_settles(f, num, den, (b - 1) as nat)
    }
}

/// There is always a nearest number.
pub proof fn there_is_a_nearest(f: Format, num: nat, den: nat)
    ensures
        is_nearest(f, num, den, nearest(f, num, den)),
{
    let b = lemma_settles(f, num, den, top(f));
    assert(is_nearest(f, num, den, b));
}

pub proof fn lemma_units_grow(f: Format, a: nat, b: nat)
    requires
        a <= b,
    ensures
        units(f, a) <= units(f, b),
        a < b ==> units(f, a) < units(f, b),
    decreases b,
{
    if a < b {
        lemma_units_grow(f, a, (b - 1) as nat);
        patterns_are_in_order(f, (b - 1) as nat);
    }
}

/// What is no more than a number is rounded to no more than it.
pub proof fn rounding_stays_below(f: Format, num: nat, den: nat, c: nat)
    requires
        den > 0,
        c <= top(f),
        num * natural::two_to(scale(f)) <= units(f, c) * den,
    ensures
        nearest(f, num, den) <= c,
{
    let b = nearest(f, num, den);
    there_is_a_nearest(f, num, den);
    if b > c {
        lemma_units_grow(f, c, (b - 1) as nat);
        lemma_units_grow(f, c, b);
        let x = in_halves(f, num);
        let h = half_way(f, b);
        let u = units(f, c);
        assert(rises_to(f, x, den, b));
        assert(h * den > 2 * (u * den)) by (nonlinear_arith)
            requires
                h > 2 * u,
                den > 0,
        ;
        let p = natural::two_to(scale(f));
        assert(2 * num * p == 2 * (num * p)) by (nonlinear_arith);
    }
}

/// What is no less than a number is rounded to no less than it.
pub proof fn rounding_stays_above(f: Format, num: nat, den: nat, c: nat)
    requires
        den > 0,
        c <= top(f),
        units(f, c) * den <= num * natural::two_to(scale(f)),
    ensures
        nearest(f, num, den) >= c,
{
    let b = nearest(f, num, den);
    there_is_a_nearest(f, num, den);
    if b < c {
        lemma_units_grow(f, b, c);
        lemma_units_grow(f, b + 1, c);
        let x = in_halves(f, num);
        let h = half_way(f, b + 1);
        let u = units(f, c);
        assert(!rises_to(f, x, den, b + 1));
        assert(h * den < 2 * (u * den)) by (nonlinear_arith)
            requires
                h < 2 * u,
                den > 0,
        ;
        let p = natural::two_to(scale(f));
        assert(2 * num * p == 2 * (num * p)) by (nonlinear_arith);
    }
}

// ---------------------------------------------------------------------------
// Finding the nearest
// ---------------------------------------------------------------------------

/// What a pattern stands for: a number of units, and how often it is doubled.
fn parts(f: Format, b: u64) -> (r: (u64, usize))
    requires
        b <= top(f),
    ensures
        units(f, b as nat) == r.0 * natural::two_to(r.1 as nat),
        r.0 < 2 * lead(f),
        r.1 == (if b < lead(f) {
            0
        } else {
            b as nat / lead(f) - 1
        }),
        b >= lead(f) ==> r.0 == lead(f) + b as nat % lead(f),
        b < lead(f) ==> r.0 == b,
        r.1 <= 2046,
{
    let l: u64 = match f {
        Format::Single => 0x80_0000,
        Format::Double => 0x10_0000_0000_0000,
    };
    if b < l {
        proof {
            assert(natural::two_to(0) == 1);
            assert(b * 1 == b);
        }
        (b, 0)
    } else {
        proof {
            match f {
                Format::Single => {
                    assert(1 <= b / 0x80_0000 <= 255);
                },
                Format::Double => {
                    assert(1 <= b / 0x10_0000_0000_0000 <= 2047);
                },
            }
        }
        (l + b % l, (b / l - 1) as usize)
    }
}

fn half_way_parts(f: Format, b: u64) -> (r: (u64, usize))
    requires
        0 < b <= top(f),
    ensures
        half_way(f, b as nat) == r.0 * natural::two_to(r.1 as nat),
        r.1 <= 2046,
{
    let (m, s) = parts(f, b - 1);
    let (n, t) = parts(f, b);
    proof {
        match f {
            Format::Single => {
                let c = (b - 1) as nat;
                assert(c / 0x80_0000 == b as nat / 0x80_0000 || c / 0x80_0000 + 1 == b as nat
                    / 0x80_0000);
            },
            Format::Double => {
                let c = (b - 1) as nat;
                assert(c / 0x10_0000_0000_0000 == b as nat / 0x10_0000_0000_0000 || c
                    / 0x10_0000_0000_0000 + 1 == b as nat / 0x10_0000_0000_0000);
            },
        }
        assert(t == s || t == s + 1);
        let p = natural::two_to(s as nat);
        assert(m * p + n * p == (m + n) * p) by (nonlinear_arith);
        assert(m * p + n * (2 * p) == (m + 2 * n) * p) by (nonlinear_arith);
    }
    if t == s {
        (m + n, s)
    } else {
        (m + 2 * n, s)
    }
}

/// How a denominator is given: a number, times ten some times over, doubled some
/// times over.
pub open spec fn denominator(by: u32, tens: nat, shift: nat) -> nat {
    by as nat * natural::ten_to(tens) * natural::two_to(shift)
}

proof fn lemma_denominator(m: nat, s: nat, by: u32, tens: nat, shift: nat)
    ensures
        m * natural::two_to(s + shift) * by * natural::ten_to(tens) == (m * natural::two_to(s))
            * denominator(by, tens, shift),
        by > 0 ==> denominator(by, tens, shift) > 0,
{
    natural::lemma_two_to_sum(s, shift);
    natural::lemma_two_to_sum(shift, 0);
    natural::lemma_ten_to_sum(tens, 0);
    let a = natural::two_to(s);
    let b = natural::two_to(shift);
    let t = natural::ten_to(tens);
    assert(m * (a * b) * by * t == (m * a) * (by * t * b)) by (nonlinear_arith);
    if by > 0 {
        assert(by * t * b > 0) by (nonlinear_arith)
            requires
                by > 0,
                t > 0,
                b > 0,
        ;
    }
}

fn rises(f: Format, x: &Natural, by: u32, tens: u128, shift: usize, b: u64) -> (r: bool)
    requires
        0 < b <= top(f),
        shift <= 4000,
    ensures
        r == rises_to(f, x@, denominator(by, tens as nat, shift as nat), b as nat),
{
    let (m, s) = half_way_parts(f, b);
    let half = Natural::shifted(m, s + shift).times_plus(by, 0).tenfold(tens);
    proof {
        lemma_denominator(m as nat, s as nat, by, tens as nat, shift as nat);
    }
    match half.beside(x) {
        Side::Below => true,
        Side::Level => b % 2 == 0,
        Side::Above => false,
    }
}

/// The pattern of the number nearest to a fraction.
pub(crate) fn find_nearest(
    f: Format,
    x: &Natural,
    by: u32,
    tens: u128,
    shift: usize,
    Ghost(num): Ghost<nat>,
) -> (r: u64)
    requires
        x@ == in_halves(f, num),
        by > 0,
        shift <= 4000,
    ensures
        r <= top(f),
        r == nearest(f, num, denominator(by, tens as nat, shift as nat)),
{
    let ghost den = denominator(by, tens as nat, shift as nat);
    let mut low: u64 = 0;
    let mut high: u64 = match f {
        Format::Single => 0x7f80_0001,
        Format::Double => 0x7ff0_0000_0000_0001,
    };
    while high - low > 1
        invariant
            x@ == in_halves(f, num),
            den == denominator(by, tens as nat, shift as nat),
            shift <= 4000,
            low < high <= top(f) + 1,
            low > 0 ==> rises_to(f, x@, den, low as nat),
            high <= top(f) ==> !rises_to(f, x@, den, high as nat),
        decreases high - low,
    {
        let mid: u64 = low + (high - low) / 2;
        if rises(f, x, by, tens, shift, mid) {
            low = mid;
        } else {
            high = mid;
        }
    }
    proof {
        assert(high == low + 1);
        assert(is_nearest(f, num, den, low as nat));
        lemma_denominator(0, 0, by, tens as nat, shift as nat);
        there_is_one_nearest(f, num, den, low as nat);
    }
    low
}

// ---------------------------------------------------------------------------
// Numbers of single precision
// ---------------------------------------------------------------------------

pub const ONE: u32 = 0x3f80_0000;

/// What is no number.
pub const NAN: u32 = 0x7fc0_0000;

/// A pattern without its sign.
pub open spec fn magnitude(b: u32) -> nat {
    (b % 0x8000_0000) as nat
}

pub open spec fn is_negative(b: u32) -> bool {
    b >= 0x8000_0000
}

pub open spec fn is_nan(b: u32) -> bool {
    magnitude(b) > 0x7f80_0000
}

/// Where a number stands among the others; there is one nothing, with either
/// sign.
pub open spec fn rank(b: u32) -> int {
    if is_negative(b) {
        -(magnitude(b) as int)
    } else {
        magnitude(b) as int
    }
}

/// Whether a number is another or beyond it. What is no number is neither.
pub open spec fn at_least(a: u32, b: u32) -> bool {
    !is_nan(a) && !is_nan(b) && rank(a) >= rank(b)
}

pub open spec fn below(a: u32, b: u32) -> bool {
    !is_nan(a) && !is_nan(b) && rank(a) < rank(b)
}

fn bare(b: u32) -> (r: u32)
    ensures
        r == magnitude(b),
{
    b % 0x8000_0000
}

/// Where a number stands among the others.
pub fn rank_of(b: u32) -> (r: i64)
    ensures
        r == rank(b),
{
    if b >= 0x8000_0000 {
        -(bare(b) as i64)
    } else {
        b as i64
    }
}

/// Whether this is no number.
pub fn no_number(b: u32) -> (r: bool)
    ensures
        r == is_nan(b),
{
    bare(b) > 0x7f80_0000
}

/// Whether a number is another or beyond it.
pub fn reaches(a: u32, b: u32) -> (r: bool)
    ensures
        r == at_least(a, b),
{
    !no_number(a) && !no_number(b) && rank_of(a) >= rank_of(b)
}

/// Whether a number is below another.
pub fn falls_below(a: u32, b: u32) -> (r: bool)
    ensures
        r == below(a, b),
{
    !no_number(a) && !no_number(b) && rank_of(a) < rank_of(b)
}

/// A number, or what is nearest to it from nothing to one.
pub open spec fn kept_within_one(b: u32) -> u32 {
    if below(b, 0) {
        0
    } else if below(ONE, b) {
        ONE
    } else {
        b
    }
}

pub fn keep_within_one(b: u32) -> (r: u32)
    ensures
        r == kept_within_one(b),
{
    if falls_below(b, 0) {
        0
    } else if falls_below(ONE, b) {
        ONE
    } else {
        b
    }
}

/// The number nearest to a whole one.
pub open spec fn of_whole(n: nat) -> u32 {
    nearest(Format::Single, n, 1) as u32
}

pub(crate) proof fn lemma_plain_denominator(shift: nat)
    ensures
        denominator(1, 0, shift) == natural::two_to(shift),
        denominator(1, 0, 0) == 1,
{
    let p = natural::two_to(shift);
    assert(natural::ten_to(0) == 1 && natural::two_to(0) == 1);
    assert(1 * 1 * p == p) by (nonlinear_arith);
    assert(1 * 1 * 1 == 1) by (nonlinear_arith);
}

/// Twice some units, doubled a certain number of times.
proof fn lemma_in_halves(f: Format, m: nat, s: nat)
    ensures
        in_halves(f, m * natural::two_to(s)) == m * natural::two_to(s + scale(f) + 1),
{
    natural::lemma_two_to_sum(s, scale(f) + 1);
    let a = natural::two_to(s);
    let c = natural::two_to(scale(f));
    assert(natural::two_to(scale(f) + 1) == 2 * c);
    assert(2 * (m * a) * c == m * (a * (2 * c))) by (nonlinear_arith);
}

pub fn from_whole(n: u64) -> (r: u32)
    ensures
        r == of_whole(n as nat),
        r <= 0x7f80_0000,
        n > 0 ==> r > 0,
{
    proof {
        if n > 0 {
            let c = natural::two_to(149);
            natural::lemma_two_to_sum(149, 0);
            assert(units(Format::Single, 1) * 1 == 1);
            assert(n * c >= 1) by (nonlinear_arith)
                requires
                    n >= 1,
                    c >= 1,
            ;
            rounding_stays_above(Format::Single, n as nat, 1, 1);
        }
        lemma_in_halves(Format::Single, n as nat, 0);
        assert(natural::two_to(0) == 1);
        assert(n * 1 == n);
        lemma_plain_denominator(0);
    }
    let x = Natural::shifted(n, 150);
    find_nearest(Format::Single, &x, 1, 0, 0, Ghost(n as nat)) as u32
}

/// The product of two numbers.
pub open spec fn product(a: u32, b: u32) -> u32 {
    let m = magnitude(a);
    let n = magnitude(b);
    let size: u32 = if m == 0x7f80_0000 || n == 0x7f80_0000 {
        0x7f80_0000
    } else {
        nearest(
            Format::Single,
            units(Format::Single, m) * units(Format::Single, n),
            natural::two_to(298),
        ) as u32
    };
    if is_nan(a) || is_nan(b) || ((m == 0x7f80_0000 || n == 0x7f80_0000) && (m == 0 || n == 0)) {
        NAN
    } else if is_negative(a) == is_negative(b) {
        size
    } else {
        (0x8000_0000 + size) as u32
    }
}

pub fn multiply(a: u32, b: u32) -> (r: u32)
    ensures
        r == product(a, b),
        0 < a < 0x7f80_0000 && b <= 0x7f80_0000 ==> r <= 0x7f80_0000,
{
    let m: u32 = bare(a);
    let n: u32 = bare(b);
    let endless = m == 0x7f80_0000 || n == 0x7f80_0000;
    if m > 0x7f80_0000 || n > 0x7f80_0000 || (endless && (m == 0 || n == 0)) {
        return NAN;
    }
    let size: u32 = if endless {
        0x7f80_0000
    } else {
        let (x, s) = parts(Format::Single, m as u64);
        let (y, t) = parts(Format::Single, n as u64);
        assert(x * y <= 0x100_0000 * 0x100_0000 && 0 <= x * y) by (nonlinear_arith)
            requires
                0 <= x <= 0x100_0000,
                0 <= y <= 0x100_0000,
        ;
        let xy: u64 = x * y;
        let whole = Natural::shifted(xy, s + t + 150);
        let ghost num = units(Format::Single, m as nat) * units(Format::Single, n as nat);
        proof {
            natural::lemma_two_to_sum(s as nat, t as nat);
            let p = natural::two_to(s as nat);
            let q = natural::two_to(t as nat);
            assert((x * p) * (y * q) == (x * y) * (p * q)) by (nonlinear_arith);
            lemma_in_halves(Format::Single, xy as nat, (s + t) as nat);
            lemma_plain_denominator(298);
        }
        find_nearest(Format::Single, &whole, 1, 0, 298, Ghost(num)) as u32
    };
    if (a >= 0x8000_0000) == (b >= 0x8000_0000) {
        size
    } else {
        0x8000_0000 + size
    }
}

/// The quotient of two numbers that are not negative.
pub open spec fn quotient(a: u32, b: u32) -> u32 {
    nearest(
        Format::Single,
        units(Format::Single, a as nat),
        units(Format::Single, b as nat),
    ) as u32
}

pub fn divide(a: u32, b: u32) -> (r: u32)
    requires
        a <= 0x7f80_0000,
        0 < b <= 0x7f80_0000,
    ensures
        r == quotient(a, b),
{
    let (x, s) = parts(Format::Single, a as u64);
    let (y, t) = parts(Format::Single, b as u64);
    let whole = Natural::shifted(x, s + 150);
    let ghost num = units(Format::Single, a as nat);
    proof {
        lemma_in_halves(Format::Single, x as nat, s as nat);
        let q = natural::two_to(t as nat);
        assert(natural::ten_to(0) == 1);
        assert(y * 1 * q == y * q) by (nonlinear_arith);
    }
    find_nearest(Format::Single, &whole, y as u32, 0, t, Ghost(num)) as u32
}

/// The sum of two numbers that are not negative.
pub open spec fn sum(a: u32, b: u32) -> u32 {
    nearest(
        Format::Single,
        units(Format::Single, a as nat) + units(Format::Single, b as nat),
        natural::two_to(149),
    ) as u32
}

pub fn plus(a: u32, b: u32) -> (r: u32)
    requires
        a <= 0x7f80_0000,
        b <= 0x7f80_0000,
    ensures
        r == sum(a, b),
        r <= 0x7f80_0000,
{
    let (x, s) = parts(Format::Single, a as u64);
    let (y, t) = parts(Format::Single, b as u64);
    let whole = Natural::shifted(x, s + 150).plus(&Natural::shifted(y, t + 150));
    let ghost u = units(Format::Single, a as nat);
    let ghost v = units(Format::Single, b as nat);
    proof {
        lemma_in_halves(Format::Single, x as nat, s as nat);
        lemma_in_halves(Format::Single, y as nat, t as nat);
        lemma_plain_denominator(149);
        let c = natural::two_to(149);
        assert(2 * (u + v) * c == 2 * u * c + 2 * v * c) by (nonlinear_arith);
    }
    find_nearest(Format::Single, &whole, 1, 0, 149, Ghost(u + v)) as u32
}

/// A number less some amount, but no less than a floor. What is no number gives
/// the floor.
pub open spec fn reduced(b: u32, amount: u32, floor: u32) -> u32 {
    let left = if is_nan(b) || rank(b) <= amount {
        0
    } else if b == 0x7f80_0000 {
        0x7f80_0000
    } else {
        nearest(
            Format::Single,
            (units(Format::Single, b as nat) - units(Format::Single, amount as nat)) as nat,
            natural::two_to(149),
        ) as u32
    };
    if left < floor {
        floor
    } else {
        left
    }
}

/// Taking something off a number that is not negative never makes it larger.
pub proof fn reducing_never_adds(b: u32, amount: u32)
    requires
        amount < 0x7f80_0000,
    ensures
        at_least(b, 0) ==> at_least(b, reduced(b, amount, 0)),
{
    let f = Format::Single;
    let u = units(f, b as nat);
    let v = units(f, amount as nat);
    if at_least(b, 0) && rank(b) > amount && b != 0x7f80_0000 {
        let c = natural::two_to(149);
        natural::lemma_two_to_sum(149, 0);
        lemma_units_grow(f, amount as nat, b as nat);
        let d = (u - v) as nat;
        assert(d * c <= u * c) by (nonlinear_arith)
            requires
                d <= u,
                c >= 0,
        ;
        rounding_stays_below(f, d, c, b as nat);
    }
}

pub fn reduce(b: u32, amount: u32, floor: u32) -> (r: u32)
    requires
        amount < 0x7f80_0000,
        floor < 0x7f80_0000,
    ensures
        r == reduced(b, amount, floor),
        r <= 0x7f80_0000,
{
    let left: u32 = if no_number(b) || rank_of(b) <= amount as i64 {
        0
    } else if b == 0x7f80_0000 {
        0x7f80_0000
    } else {
        let (x, s) = parts(Format::Single, b as u64);
        let (y, t) = parts(Format::Single, amount as u64);
        let ghost u = units(Format::Single, b as nat);
        let ghost v = units(Format::Single, amount as nat);
        let all = Natural::shifted(x, s + 150);
        let off = Natural::shifted(y, t + 150);
        proof {
            lemma_units_grow(Format::Single, amount as nat, b as nat);
            lemma_in_halves(Format::Single, x as nat, s as nat);
            lemma_in_halves(Format::Single, y as nat, t as nat);
            lemma_plain_denominator(149);
            let c = natural::two_to(149);
            let d = (u - v) as nat;
            assert(u == d + v);
            assert(2 * (d + v) * c == 2 * d * c + 2 * v * c) by (nonlinear_arith);
            assert(2 * d * c >= 0) by (nonlinear_arith)
                requires
                    d >= 0,
                    c >= 0,
            ;
        }
        let whole = all.minus(&off);
        find_nearest(Format::Single, &whole, 1, 0, 149, Ghost((u - v) as nat)) as u32
    };
    if left < floor {
        floor
    } else {
        left
    }
}

// ---------------------------------------------------------------------------
// Whole numbers and decimals
// ---------------------------------------------------------------------------

/// The whole part of a number, as far as it fits; nothing if it is negative or no
/// number.
pub open spec fn whole_part(b: u32) -> nat {
    let whole = units(Format::Single, b as nat) / natural::two_to(149);
    if b > 0x7f80_0000 {
        0
    } else if whole <= u64::MAX {
        whole
    } else {
        u64::MAX as nat
    }
}

proof fn lemma_scaled_division(num: nat, den: nat, k: nat)
    requires
        den > 0,
        k > 0,
    ensures
        (num * k) / (den * k) == num / den,
        (num * k) % (den * k) == (num % den) * k,
        den * k > 0,
{
    let q = num / den;
    let r = num % den;
    vstd::arithmetic::div_mod::lemma_fundamental_div_mod(num as int, den as int);
    assert(num == den * q + r);
    assert(r * k < den * k) by (nonlinear_arith)
        requires
            r < den,
            k > 0,
    ;
    assert(num * k == q * (den * k) + r * k) by (nonlinear_arith)
        requires
            num == den * q + r,
    ;
    assert(0 <= r * k) by (nonlinear_arith)
        requires
            0 <= r,
            0 < k,
    ;
    vstd::arithmetic::div_mod::lemma_fundamental_div_mod_converse(
        (num * k) as int,
        (den * k) as int,
        q as int,
        (r * k) as int,
    );
}

/// A number of units whose point lies to the right: it is whole.
proof fn lemma_whole_units(m: nat, s: nat, c: nat)
    requires
        s >= c,
    ensures
        m * natural::two_to(s) == (m * natural::two_to((s - c) as nat)) * natural::two_to(c),
        natural::two_to(c) > 0,
{
    natural::lemma_two_to_sum((s - c) as nat, c);
    natural::lemma_two_to_sum(c, 0);
    let a = natural::two_to((s - c) as nat);
    let b = natural::two_to(c);
    assert(m * (a * b) == (m * a) * b) by (nonlinear_arith);
}

/// A number of units whose point lies within: the fraction in lowest doublings.
proof fn lemma_part_units(m: nat, s: nat, c: nat)
    requires
        s <= c,
    ensures
        natural::two_to(c) == natural::two_to((c - s) as nat) * natural::two_to(s),
        natural::two_to(s) > 0,
        natural::two_to((c - s) as nat) > 0,
{
    natural::lemma_two_to_sum((c - s) as nat, s);
    natural::lemma_two_to_sum(s, 0);
}

/// A fraction rounded to a whole number, to the even one of two that are equally
/// near.
pub open spec fn rounded(num: nat, den: nat) -> nat {
    let q = num / den;
    let r = num % den;
    if 2 * r > den || (2 * r == den && q % 2 == 1) {
        q + 1
    } else {
        q
    }
}

/// A number in tenths or hundredths, rounded.
pub open spec fn in_parts(f: Format, b: nat, k: nat) -> nat {
    rounded(k * units(f, b), natural::two_to(scale(f)))
}

/// A number with one decimal or two, when `k` is ten or a hundred.
pub open spec fn decimal_text(f: Format, b: nat, k: nat) -> Seq<char> {
    let h = in_parts(f, b, k);
    number::digits(h / k) + "."@ + (if k == 10 {
        number::digits(h % 10)
    } else {
        number::digits(h / 10 % 10) + number::digits(h % 10)
    })
}

/// Whether a number is small enough to be written out.
pub open spec fn is_printable(f: Format, b: nat) -> bool {
    b / lead(f) <= (match f {
        Format::Single => 254nat,
        Format::Double => 1138nat,
    })
}

fn whole_units(f: Format, m: u64, n: usize) -> (r: u128)
    requires
        m < 2 * lead(f),
        f is Single ==> n <= 104,
        f is Double ==> n <= 63,
    ensures
        r == m * natural::two_to(n as nat),
{
    let mut r: u128 = m as u128;
    let mut i: usize = 0;
    assert(natural::two_to(0) == 1);
    assert(m * 1 == m);
    while i < n
        invariant
            i <= n,
            m < 2 * lead(f),
            f is Single ==> n <= 104,
            f is Double ==> n <= 63,
            r == m * natural::two_to(i as nat),
        decreases n - i,
    {
        proof {
            let p = natural::two_to(i as nat);
            let p2 = natural::two_to((i + 1) as nat);
            assert((m * p) * 2 == m * (2 * p)) by (nonlinear_arith);
            if f is Single {
                natural::lemma_two_to_grows((i + 1) as nat, 104);
                natural::lemma_powers();
                assert(m * p2 <= 0xff_ffff * 0x100_0000_0000_0000_0000_0000_0000)
                    by (nonlinear_arith)
                    requires
                        0 <= m <= 0xff_ffff,
                        0 <= p2 <= 0x100_0000_0000_0000_0000_0000_0000,
                ;
            } else {
                natural::lemma_two_to_grows((i + 1) as nat, 63);
                natural::lemma_powers();
                assert(m * p2 <= 0x1f_ffff_ffff_ffff * 0x8000_0000_0000_0000) by (nonlinear_arith)
                    requires
                        0 <= m <= 0x1f_ffff_ffff_ffff,
                        0 <= p2 <= 0x8000_0000_0000_0000,
                ;
            }
        }
        r = r * 2;
        i = i + 1;
    }
    r
}

/// A fraction of some doublings, rounded.
fn round_parts(num: u64, j: usize) -> (r: u64)
    requires
        num < 0x1000_0000_0000_0000,
    ensures
        r == rounded(num as nat, natural::two_to(j as nat)),
        r <= num + 1,
{
    let ghost d = natural::two_to(j as nat);
    if j >= 63 {
        proof {
            natural::lemma_two_to_grows(63, j as nat);
            natural::lemma_powers();
            vstd::arithmetic::div_mod::lemma_basic_div(num as int, d as int);
            vstd::arithmetic::div_mod::lemma_small_mod(num as nat, d);
        }
        0
    } else {
        let d: u64 = natural::power_of_two(j);
        proof {
            natural::lemma_two_to_grows(j as nat, 63);
            vstd::arithmetic::div_mod::lemma_div_is_ordered_by_denominator(
                num as int,
                1,
                d as int,
            );
        }
        let q: u64 = num / d;
        let r: u64 = num % d;
        if (r as u128) * 2 > d as u128 || ((r as u128) * 2 == d as u128 && q % 2 == 1) {
            q + 1
        } else {
            q
        }
    }
}

/// Parts of a number whose point lies to the right.
proof fn lemma_whole_parts(f: Format, b: nat, k: nat, m: nat, s: nat)
    requires
        units(f, b) == m * natural::two_to(s),
        s >= scale(f),
    ensures
        in_parts(f, b, k) == k * (m * natural::two_to((s - scale(f)) as nat)),
{
    let c = scale(f);
    lemma_whole_units(m, s, c);
    let whole = m * natural::two_to((s - c) as nat);
    let p = natural::two_to(c);
    assert(k * (whole * p) == (k * whole) * p) by (nonlinear_arith);
    lemma_scaled_division(k * whole, 1, p);
    assert(1 * p == p);
    assert(0 * p == 0) by (nonlinear_arith);
}

/// Parts of a number whose point lies within.
proof fn lemma_rounded_parts(f: Format, b: nat, k: nat, m: nat, s: nat)
    requires
        units(f, b) == m * natural::two_to(s),
        s < scale(f),
    ensures
        in_parts(f, b, k) == rounded(k * m, natural::two_to((scale(f) - s) as nat)),
{
    let c = scale(f);
    let num = k * m;
    lemma_part_units(m, s, c);
    let d = natural::two_to((c - s) as nat);
    let p = natural::two_to(s);
    assert(k * (m * p) == (k * m) * p) by (nonlinear_arith);
    lemma_scaled_division(num, d, p);
    let r = num % d;
    assert((2 * r > d) == (2 * (r * p) > d * p)) by (nonlinear_arith)
        requires
            p > 0,
    ;
    assert((2 * r == d) == (2 * (r * p) == d * p)) by (nonlinear_arith)
        requires
            p > 0,
    ;
}

proof fn lemma_no_fraction(whole: nat, k: nat)
    requires
        k == 10 || k == 100,
    ensures
        (k * whole) / k == whole,
        (k * whole) % 10 == 0,
        k == 100 ==> (k * whole) / 10 % 10 == 0,
{
    if k == 10 {
        assert((10 * whole) / 10 == whole);
    } else {
        assert((100 * whole) / 100 == whole);
        assert((100 * whole) / 10 == 10 * whole);
    }
}

/// A number with one decimal or two.
pub fn print_decimal(f: Format, b: u64, k: u64) -> (r: String)
    requires
        b <= top(f),
        k == 10 || k == 100,
        is_printable(f, b as nat),
    ensures
        r@ == decimal_text(f, b as nat, k as nat),
{
    let (m, s) = parts(f, b);
    let c: usize = match f {
        Format::Single => 149,
        Format::Double => 1074,
    };
    if s >= c {
        let whole: u128 = whole_units(f, m, s - c);
        proof {
            lemma_whole_parts(f, b as nat, k as nat, m as nat, s as nat);
            lemma_no_fraction(whole as nat, k as nat);
        }
        let mut out = decimal_wide(whole);
        out.append(".");
        out.append(decimal(0).as_str());
        if k == 100 {
            out.append(decimal(0).as_str());
        }
        assert(out@ =~= decimal_text(f, b as nat, k as nat));
        out
    } else {
        assert(k * m <= 100 * m && 0 <= k * m) by (nonlinear_arith)
            requires
                0 <= k <= 100,
                0 <= m,
        ;
        let all: u64 = round_parts(k * m, c - s);
        proof {
            lemma_rounded_parts(f, b as nat, k as nat, m as nat, s as nat);
        }
        let mut out = decimal(all / k);
        out.append(".");
        if k == 100 {
            out.append(decimal(all / 10 % 10).as_str());
        }
        out.append(decimal(all % 10).as_str());
        assert(out@ =~= decimal_text(f, b as nat, k as nat));
        out
    }
}

pub fn to_whole(b: u32) -> (r: u64)
    ensures
        r == whole_part(b),
{
    if b > 0x7f80_0000 {
        return 0;
    }
    let (m, s) = parts(Format::Single, b as u64);
    if s >= 149 {
        let n: usize = s - 149;
        let ghost all = m * natural::two_to(n as nat);
        proof {
            lemma_whole_units(m as nat, s as nat, 149);
            let c = natural::two_to(149);
            lemma_scaled_division(all as nat, 1, c);
            assert(1 * c == c);
        }
        if n > 104 {
            proof {
                natural::lemma_powers();
                natural::lemma_two_to_grows(104, n as nat);
                let p = natural::two_to(n as nat);
                assert(m * p >= 0x80_0000 * p) by (nonlinear_arith)
                    requires
                        m >= 0x80_0000,
                        p >= 0,
                ;
            }
            return 0xffff_ffff_ffff_ffff;
        }
        let whole: u128 = whole_units(Format::Single, m, n);
        if whole > 0xffff_ffff_ffff_ffff {
            0xffff_ffff_ffff_ffff
        } else {
            whole as u64
        }
    } else {
        let j: usize = 149 - s;
        proof {
            lemma_part_units(m as nat, s as nat, 149);
            lemma_scaled_division(
                m as nat,
                natural::two_to(j as nat),
                natural::two_to(s as nat),
            );
        }
        if j >= 63 {
            proof {
                natural::lemma_two_to_grows(63, j as nat);
                natural::lemma_powers();
                vstd::arithmetic::div_mod::lemma_basic_div(
                    m as int,
                    natural::two_to(j as nat) as int,
                );
            }
            0
        } else {
            m / natural::power_of_two(j)
        }
    }
}

/// A number of single precision with two decimals.
pub open spec fn two_decimals(b: u32) -> Seq<char> {
    let size = if magnitude(b) == 0x7f80_0000 {
        "inf"@
    } else {
        decimal_text(Format::Single, magnitude(b), 100)
    };
    if is_nan(b) {
        "NaN"@
    } else if is_negative(b) {
        "-"@ + size
    } else {
        size
    }
}

pub fn print_two_decimals(b: u32) -> (r: String)
    ensures
        r@ == two_decimals(b),
{
    let m: u32 = bare(b);
    if m > 0x7f80_0000 {
        return own("NaN");
    }
    let size = if m == 0x7f80_0000 {
        own("inf")
    } else {
        print_decimal(Format::Single, m as u64, 100)
    };
    if b >= 0x8000_0000 {
        let mut out = own("-");
        out.append(size.as_str());
        out
    } else {
        size
    }
}

/// A number of bytes in gigabytes: both the number and the quotient are taken in
/// double precision.
pub open spec fn gigabytes(bytes: u64) -> nat {
    let n = nearest(Format::Double, bytes as nat, 1);
    nearest(
        Format::Double,
        units(Format::Double, n),
        1_000_000_000 * natural::two_to(1074),
    )
}

/// The pattern of two to the power of sixty-four.
proof fn lemma_large_double()
    ensures
        units(Format::Double, 0x43f0_0000_0000_0000) == natural::two_to(1138),
{
    let b: nat = 0x43f0_0000_0000_0000;
    assert(b / 0x10_0000_0000_0000 == 1087 && b % 0x10_0000_0000_0000 == 0);
    natural::lemma_powers();
    natural::lemma_two_to_sum(52, 1086);
}

pub fn count_gigabytes(bytes: u64) -> (r: u64)
    ensures
        r == gigabytes(bytes),
        r <= 0x43f0_0000_0000_0000,
{
    let ghost c: nat = 0x43f0_0000_0000_0000;
    proof {
        lemma_in_halves(Format::Double, bytes as nat, 0);
        assert(natural::two_to(0) == 1);
        assert(bytes * 1 == bytes);
        lemma_plain_denominator(0);
        lemma_large_double();
    }
    let x = Natural::shifted(bytes, 1075);
    let n: u64 = find_nearest(Format::Double, &x, 1, 0, 0, Ghost(bytes as nat));
    proof {
        let p = natural::two_to(1074);
        natural::lemma_two_to_sum(64, 1074);
        natural::lemma_powers();
        assert(bytes * p <= 0x1_0000_0000_0000_0000 * p) by (nonlinear_arith)
            requires
                0 <= bytes <= 0x1_0000_0000_0000_0000,
                0 <= p,
        ;
        assert(natural::two_to(1138) * 1 == natural::two_to(1138));
        rounding_stays_below(Format::Double, bytes as nat, 1, c);
    }
    let (m, s) = parts(Format::Double, n);
    let y = Natural::shifted(m, s + 1075);
    let ghost num = units(Format::Double, n as nat);
    proof {
        lemma_in_halves(Format::Double, m as nat, s as nat);
        let p = natural::two_to(1074);
        assert(natural::ten_to(0) == 1);
        assert(1_000_000_000 * 1 * p == 1_000_000_000 * p) by (nonlinear_arith);
    }
    let r: u64 = find_nearest(Format::Double, &y, 1_000_000_000, 0, 1074, Ghost(num));
    proof {
        let p = natural::two_to(1074);
        let u = units(Format::Double, c);
        lemma_units_grow(Format::Double, n as nat, c);
        natural::lemma_two_to_sum(1074, 0);
        assert(num * p <= u * (1_000_000_000 * p)) by (nonlinear_arith)
            requires
                0 <= num <= u,
                0 <= p,
        ;
        assert(1_000_000_000 * p > 0) by (nonlinear_arith)
            requires
                p > 0,
        ;
        rounding_stays_below(Format::Double, num, (1_000_000_000 * p) as nat, c);
    }
    r
}

} // verus!
