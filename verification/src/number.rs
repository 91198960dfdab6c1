//! Numbers as text: decimal printing and reading.

use crate::float;
use crate::float::{Format, NAN, find_nearest};
use crate::natural;
use crate::natural::{Natural, Side};
use crate::text;
use crate::text::{Class, chars_of, eq_ignore_case};
use vstd::prelude::*;

verus! {

/// The decimal digit for a value below ten.
pub open spec fn digit_char(d: int) -> char {
    ((d + 48) as u8) as char
}

/// A natural number in decimal, without leading zeros.
pub open spec fn digits(n: nat) -> Seq<char>
    decreases n,
{
    if n < 10 {
        seq![digit_char(n as int)]
    } else {
        digits(n / 10).push(digit_char((n % 10) as int))
    }
}

/// The value of a run of decimal digits.
pub open spec fn value_of(s: Seq<char>) -> nat
    decreases s.len(),
{
    if s.len() == 0 {
        0
    } else {
        value_of(s.drop_last()) * 10 + ((s.last() as u32) - 48) as nat
    }
}

pub open spec fn all_digits(s: Seq<char>) -> bool {
    forall|i: int| 0 <= i < s.len() ==> text::is_digit(#[trigger] s[i])
}

/// A natural number read from its decimal digits, with an optional plus sign.
pub open spec fn read_nat(s: Seq<char>) -> Option<nat> {
    let t = if s.len() > 0 && s[0] == '+' {
        s.drop_first()
    } else {
        s
    };
    if t.len() > 0 && all_digits(t) {
        Some(value_of(t))
    } else {
        None
    }
}

/// A number printed in decimal reads back as itself.
pub proof fn printed_numbers_read_back(n: nat)
    ensures
        read_nat(digits(n)) == Some(n),
{
    lemma_digits(n);
    assert(digits(n)[0] != '+');
}

proof fn lemma_digits(n: nat)
    ensures
        digits(n).len() > 0,
        all_digits(digits(n)),
        value_of(digits(n)) == n,
    decreases n,
{
    if n < 10 {
        let s = digits(n);
        assert(s.drop_last() =~= Seq::<char>::empty());
        assert(value_of(s.drop_last()) == 0);
    } else {
        lemma_digits(n / 10);
        let s = digits(n);
        assert(s.drop_last() =~= digits(n / 10));
        let d = (n % 10) as int;
        assert(s.last() == digit_char(d));
        assert(text::is_digit(digit_char(d)));
    }
}

/// The number of decimal digits is at least one.
pub proof fn lemma_digits_nonempty(n: nat)
    ensures
        digits(n).len() > 0,
        all_digits(digits(n)),
{
    lemma_digits(n);
}

fn digit(d: u8) -> (r: char)
    requires
        d < 10,
    ensures
        r == digit_char(d as int),
{
    (d + 48) as char
}

fn decimal_chars(n: u128) -> (r: Vec<char>)
    ensures
        r@ == digits(n as nat),
    decreases n,
{
    if n < 10 {
        let v: Vec<char> = vec![digit(n as u8)];
        assert(v@ =~= digits(n as nat));
        v
    } else {
        let mut v = decimal_chars(n / 10);
        v.push(digit((n % 10) as u8));
        v
    }
}

/// A number in decimal.
pub fn decimal_wide(n: u128) -> (r: String)
    ensures
        r@ == digits(n as nat),
{
    crate::text::text_of(decimal_chars(n).as_slice())
}

/// A number in decimal.
pub fn decimal(n: u64) -> (r: String)
    ensures
        r@ == digits(n as nat),
{
    decimal_wide(n as u128)
}

/// A count in decimal.
pub fn decimal_usize(n: usize) -> (r: String)
    ensures
        r@ == digits(n as nat),
{
    decimal(n as u64)
}

proof fn lemma_value_grows(s: Seq<char>, n: int)
    requires
        0 <= n <= s.len(),
    ensures
        value_of(s.take(n)) <= value_of(s),
    decreases s.len() - n,
{
    assert(s.take(s.len() as int) =~= s);
    if n < s.len() {
        lemma_value_grows(s, n + 1);
        assert(s.take(n + 1).drop_last() =~= s.take(n));
    }
}

/// The value of a run of digits, unless it is over the limit.
fn bounded_value(s: &[char], from: usize, to: usize, limit: u128) -> (r: Option<u128>)
    requires
        from <= to <= s@.len(),
        all_digits(s@.subrange(from as int, to as int)),
        limit <= 1_000_000_000_000_000_000_000_000_000_000,
    ensures
        ({
            let v = value_of(s@.subrange(from as int, to as int));
            match r {
                Some(n) => n == v && v <= limit,
                None => v > limit,
            }
        }),
{
    let ghost part = s@.subrange(from as int, to as int);
    let mut i: usize = from;
    let mut n: u128 = 0;
    assert(part.take(0) =~= Seq::<char>::empty());
    while i < to
        invariant
            from <= i <= to <= s@.len(),
            part == s@.subrange(from as int, to as int),
            all_digits(part),
            n == value_of(part.take(i - from)),
            n <= limit <= 1_000_000_000_000_000_000_000_000_000_000,
        decreases to - i,
    {
        assert(text::is_digit(part[i - from]));
        assert(part[i - from] == s@[i as int]);
        let d: u128 = (s[i] as u32 - 48) as u128;
        proof {
            let next = part.take(i - from + 1);
            assert(next.drop_last() =~= part.take(i - from));
            lemma_value_grows(part, i - from + 1);
        }
        n = n * 10 + d;
        if n > limit {
            return None;
        }
        i = i + 1;
    }
    assert(part.take(to - from) =~= part);
    Some(n)
}

fn digits_from(s: &[char], from: usize) -> (r: usize)
    requires
        from <= s@.len(),
    ensures
        from <= r <= s@.len(),
        all_digits(s@.subrange(from as int, r as int)),
        r < s@.len() ==> !text::is_digit(s@[r as int]),
{
    let mut i: usize = from;
    while i < s.len() && '0' <= s[i] && s[i] <= '9'
        invariant
            from <= i <= s@.len(),
            forall|j: int| from <= j < i ==> text::is_digit(#[trigger] s@[j]),
        decreases s@.len() - i,
    {
        i = i + 1;
    }
    i
}

/// A count read from decimal text, as far as it fits a machine word.
pub open spec fn read_count(s: Seq<char>) -> Option<nat> {
    match read_nat(s) {
        Some(n) => if n <= usize::MAX {
            Some(n)
        } else {
            None
        },
        None => None,
    }
}

pub fn parse_count(s: &[char]) -> (r: Option<usize>)
    ensures
        match r {
            Some(n) => read_count(s@) == Some(n as nat),
            None => read_count(s@) is None,
        },
{
    let start: usize = if s.len() > 0 && s[0] == '+' {
        1
    } else {
        0
    };
    let end: usize = digits_from(s, start);
    proof {
        let t = if s@.len() > 0 && s@[0] == '+' {
            s@.drop_first()
        } else {
            s@
        };
        assert(t =~= s@.subrange(start as int, s@.len() as int));
        if end < s@.len() {
            assert(t[end - start] == s@[end as int]);
            assert(!all_digits(t));
        }
    }
    if end == start || end < s.len() {
        return None;
    }
    match bounded_value(s, start, end, usize::MAX as u128) {
        Some(n) => Some(n as usize),
        None => None,
    }
}

// ---------------------------------------------------------------------------
// Measurements
// ---------------------------------------------------------------------------

/// The pattern of the number nearest to a whole one with its point moved to the
/// right, or to the left where `places` is negative.
pub open spec fn nearest_single(v: nat, places: int) -> nat {
    if places >= 0 {
        float::nearest(Format::Single, v * natural::ten_to(places as nat), 1)
    } else {
        float::nearest(Format::Single, v, natural::ten_to((-places) as nat))
    }
}

/// A whole number with an optional sign.
pub open spec fn read_exponent(s: Seq<char>) -> Option<int> {
    if s.len() > 0 && s[0] == '-' {
        if s.len() > 1 && all_digits(s.drop_first()) {
            Some(-(value_of(s.drop_first()) as int))
        } else {
            None
        }
    } else {
        match read_nat(s) {
            Some(n) => Some(n as int),
            None => None,
        }
    }
}

/// A measurement without sign and exponent, taken times a power of ten: digits,
/// then at most one point and further digits, at least one digit in all.
pub open spec fn read_scaled(s: Seq<char>, exponent: int) -> Option<nat> {
    let n = text::leading(s, Class::IsNot('.'));
    let whole = s.take(n as int);
    let part = if n < s.len() {
        s.skip(n as int + 1)
    } else {
        seq![]
    };
    if all_digits(whole) && all_digits(part) && whole.len() + part.len() > 0 {
        Some(nearest_single(value_of(whole + part), exponent - part.len()))
    } else {
        None
    }
}

/// Where the exponent begins: at the first `e`, small or large.
pub open spec fn exponent_at(s: Seq<char>) -> nat {
    let small = text::leading(s, Class::IsNot('e'));
    let large = text::leading(s, Class::IsNot('E'));
    if small <= large {
        small
    } else {
        large
    }
}

/// A measurement without its sign.
pub open spec fn read_unsigned_measure(s: Seq<char>) -> Option<nat> {
    let n = exponent_at(s);
    if text::same_ignoring_case(s, "inf"@) || text::same_ignoring_case(s, "infinity"@) {
        Some(float::top(Format::Single))
    } else if text::same_ignoring_case(s, "nan"@) {
        Some(NAN as nat)
    } else if n < s.len() {
        match read_exponent(s.skip(n as int + 1)) {
            Some(e) => read_scaled(s.take(n as int), e),
            None => None,
        }
    } else {
        read_scaled(s, 0)
    }
}

/// A decimal measurement such as `14`, `-3`, `22.5` or `1.2e1`, as the pattern of
/// the number of single precision that is nearest to it.
pub open spec fn read_measure(s: Seq<char>) -> Option<u32> {
    if s.len() > 0 && s[0] == '-' {
        match read_unsigned_measure(s.drop_first()) {
            Some(v) => Some((0x8000_0000 + v) as u32),
            None => None,
        }
    } else {
        match read_unsigned_measure(
            if s.len() > 0 && s[0] == '+' {
                s.drop_first()
            } else {
                s
            },
        ) {
            Some(v) => Some(v as u32),
            None => None,
        }
    }
}

proof fn lemma_value_bound(s: Seq<char>)
    requires
        all_digits(s),
    ensures
        value_of(s) < natural::ten_to(s.len()),
    decreases s.len(),
{
    if s.len() > 0 {
        let front = s.drop_last();
        assert forall|i: int| 0 <= i < front.len() implies text::is_digit(#[trigger] front[i]) by {
            assert(front[i] == s[i]);
        }
        lemma_value_bound(front);
        assert(text::is_digit(s[s.len() - 1]));
    }
}

/// Nothing stays nothing, wherever its point is.
proof fn lemma_nothing(places: int)
    ensures
        nearest_single(0, places) == 0,
{
    let p = natural::ten_to(places as nat);
    assert(0 * p == 0) by (nonlinear_arith);
    let den = if places >= 0 {
        1
    } else {
        natural::ten_to((-places) as nat)
    };
    natural::lemma_ten_to_sum((-places) as nat, 0);
    let c = natural::two_to(149);
    assert(2 * 0 * c == 0) by (nonlinear_arith);
    assert(float::units(Format::Single, 0) == 0 && float::units(Format::Single, 1) == 1);
    assert(float::half_way(Format::Single, 1) == 1);
    assert(1 * den == den);
    float::there_is_one_nearest(Format::Single, 0, den, 0);
}

/// With its point far to the right, anything is beyond all numbers.
proof fn lemma_far_right(v: nat, places: int)
    requires
        v > 0,
        places >= 60,
    ensures
        nearest_single(v, places) == float::top(Format::Single),
{
    let f = Format::Single;
    let t = float::top(f);
    let num = v * natural::ten_to(places as nat);
    natural::lemma_ten_over_two(places as nat);
    natural::lemma_two_to_grows(180, 3 * places as nat);
    let p = natural::ten_to(places as nat);
    assert(v * p >= p) by (nonlinear_arith)
        requires
            v >= 1,
            p >= 0,
    ;
    natural::lemma_powers();
    natural::lemma_two_to_sum(23, 254);
    natural::lemma_two_to_sum(180, 149);
    natural::lemma_two_to_grows(277, 329);
    natural::lemma_two_to_sum(149, 0);
    assert(0x7f80_0000nat / 0x80_0000 == 255 && 0x7f80_0000nat % 0x80_0000 == 0);
    assert(float::units(f, t) == natural::two_to(277));
    float::patterns_are_in_order(f, (t - 1) as nat);
    let c = natural::two_to(149);
    let e = natural::two_to(180);
    assert(2 * num * c >= 2 * (e * c)) by (nonlinear_arith)
        requires
            num >= e,
            c >= 0,
    ;
    assert(float::half_way(f, t) < 2 * natural::two_to(277));
    assert(float::half_way(f, t) * 1 == float::half_way(f, t));
    assert(float::is_nearest(f, num, 1, t));
    float::there_is_one_nearest(f, num, 1, t);
}

/// With its point far to the left, anything is next to nothing.
proof fn lemma_far_left(v: nat, len: nat, places: int)
    requires
        v < natural::ten_to(len),
        places <= -(len + 60),
    ensures
        nearest_single(v, places) == 0,
{
    let f = Format::Single;
    let n = (-places) as nat;
    let den = natural::ten_to(n);
    let m = (n - len) as nat;
    natural::lemma_ten_to_sum(len, m);
    natural::lemma_ten_over_two(m);
    natural::lemma_two_to_grows(150, 3 * m);
    let c = natural::two_to(149);
    let t = natural::ten_to(len);
    let g = natural::ten_to(m);
    assert(natural::two_to(150) == 2 * c);
    natural::lemma_two_to_sum(149, 0);
    assert(2 * v * c < t * g) by (nonlinear_arith)
        requires
            v < t,
            g >= 2 * c,
            c > 0,
    ;
    assert(float::units(f, 0) == 0 && float::units(f, 1) == 1);
    assert(float::half_way(f, 1) == 1);
    assert(1 * den == den);
    float::there_is_one_nearest(f, v, den, 0);
}

/// Beyond some distance it does not matter how far the point is moved.
proof fn lemma_far_is_far(d: Seq<char>, a: int, b: int)
    requires
        all_digits(d),
        a >= 60 && b >= 60 || a <= -(d.len() + 60) && b <= -(d.len() + 60),
    ensures
        nearest_single(value_of(d), a) == nearest_single(value_of(d), b),
{
    let v = value_of(d);
    lemma_value_bound(d);
    if a >= 60 {
        if v == 0 {
            lemma_nothing(a);
            lemma_nothing(b);
        } else {
            lemma_far_right(v, a);
            lemma_far_right(v, b);
        }
    } else {
        lemma_far_left(v, d.len(), a);
        lemma_far_left(v, d.len(), b);
    }
}

fn whole_of(d: &[char]) -> (r: Natural)
    requires
        all_digits(d@),
    ensures
        r@ == value_of(d@),
{
    let mut n = Natural::shifted(0, 0);
    let mut i: usize = 0;
    assert(0 * natural::two_to(0) == 0) by (nonlinear_arith);
    assert(d@.take(0) =~= seq![]);
    while i < d.len()
        invariant
            i <= d@.len(),
            all_digits(d@),
            n@ == value_of(d@.take(i as int)),
        decreases d@.len() - i,
    {
        assert(text::is_digit(d@[i as int]));
        assert(d@.take(i + 1).drop_last() =~= d@.take(i as int));
        n = n.times_plus(10, d[i] as u32 - 48);
        i = i + 1;
    }
    assert(d@.take(i as int) =~= d@);
    n
}

/// The number nearest to digits with the point moved.
fn measure(d: &[char], places: i128) -> (r: u32)
    requires
        all_digits(d@),
        -4_000_000_000_000_000_000_000_000_000_000 <= places
            <= 4_000_000_000_000_000_000_000_000_000_000,
    ensures
        r == nearest_single(value_of(d@), places as int),
        r <= 0x7f80_0000,
{
    let ghost v = value_of(d@);
    let n = whole_of(d);
    let zero = Natural::shifted(0, 0);
    assert(0 * natural::two_to(0) == 0) by (nonlinear_arith);
    if n.beside(&zero) == Side::Level {
        proof {
            lemma_nothing(places as int);
        }
        return 0;
    }
    if places > 60 {
        proof {
            lemma_far_right(v, places as int);
        }
        return 0x7f80_0000;
    }
    if places < -(d.len() as i128 + 60) {
        proof {
            lemma_value_bound(d@);
            lemma_far_left(v, d@.len(), places as int);
        }
        return 0;
    }
    proof {
        let c = natural::two_to(149);
        assert(natural::two_to(150) == 2 * c);
        float::lemma_plain_denominator(0);
    }
    if places >= 0 {
        let many = n.tenfold(places as u128);
        let ghost num = many@;
        let x = many.doubled(150);
        proof {
            let c = natural::two_to(149);
            assert(num * (2 * c) == 2 * num * c) by (nonlinear_arith);
        }
        find_nearest(Format::Single, &x, 1, 0, 0, Ghost(num)) as u32
    } else {
        let tens: u128 = (-places) as u128;
        let x = n.doubled(150);
        proof {
            let c = natural::two_to(149);
            let t = natural::ten_to(tens as nat);
            assert(v * (2 * c) == 2 * v * c) by (nonlinear_arith);
            assert(natural::two_to(0) == 1);
            assert(1 * t * 1 == t) by (nonlinear_arith);
        }
        find_nearest(Format::Single, &x, 1, tens, 0, Ghost(v)) as u32
    }
}

/// The largest exponent that is told apart from larger ones.
const EXPONENT_LIMIT: u128 = 1_000_000_000_000_000_000_000_000_000_000;

/// An exponent, as far as it is within the limit.
fn parse_exponent(s: &[char], from: usize) -> (r: Option<i128>)
    requires
        from <= s@.len(),
    ensures
        match (r, read_exponent(s@.skip(from as int))) {
            (Some(e), Some(x)) => -EXPONENT_LIMIT <= e <= EXPONENT_LIMIT && (e == x || x
                > EXPONENT_LIMIT && e == EXPONENT_LIMIT || x < -EXPONENT_LIMIT && e
                == -EXPONENT_LIMIT),
            (None, None) => true,
            _ => false,
        },
{
    let ghost t = s@.skip(from as int);
    let signed: bool = from < s.len() && (s[from] == '+' || s[from] == '-');
    let start: usize = if signed {
        from + 1
    } else {
        from
    };
    let end: usize = digits_from(s, start);
    proof {
        let u = if signed {
            t.drop_first()
        } else {
            t
        };
        assert(t.len() > 0 ==> t[0] == s@[from as int]);
        assert(u =~= s@.subrange(start as int, s@.len() as int));
        if end < s@.len() {
            assert(u[end - start] == s@[end as int]);
            assert(!all_digits(u));
        }
    }
    if end == start || end < s.len() {
        return None;
    }
    let size: u128 = match bounded_value(s, start, end, EXPONENT_LIMIT) {
        Some(n) => n,
        None => EXPONENT_LIMIT,
    };
    if signed && s[from] == '-' {
        Some(-(size as i128))
    } else {
        Some(size as i128)
    }
}

fn parse_scaled(s: &[char], exponent: i128, Ghost(x): Ghost<int>) -> (r: Option<u32>)
    requires
        -EXPONENT_LIMIT <= exponent <= EXPONENT_LIMIT,
        exponent == x || x > EXPONENT_LIMIT && exponent == EXPONENT_LIMIT || x < -EXPONENT_LIMIT
            && exponent == -EXPONENT_LIMIT,
    ensures
        match r {
            Some(v) => read_scaled(s@, x) == Some(v as nat) && v <= 0x7f80_0000,
            None => read_scaled(s@, x) is None,
        },
{
    let n: usize = crate::text::run_from(s, 0, Class::IsNot('.'));
    assert(s@.skip(0) =~= s@);
    let ghost whole = s@.take(n as int);
    let ghost part = if n < s@.len() {
        s@.skip(n as int + 1)
    } else {
        seq![]
    };
    let mut d: Vec<char> = Vec::new();
    let mut i: usize = 0;
    while i < s.len()
        invariant
            n == text::leading(s@, Class::IsNot('.')),
            n <= s@.len(),
            i <= s@.len(),
            whole == s@.take(n as int),
            part == (if n < s@.len() {
                s@.skip(n as int + 1)
            } else {
                seq![]
            }),
            d@ =~= (whole + part).take(if i <= n {
                i as int
            } else {
                i - 1
            }),
            all_digits(d@),
        decreases s@.len() - i,
    {
        let c: char = s[i];
        if i != n {
            proof {
                let all = whole + part;
                if i < n {
                    assert(all[i as int] == c);
                    assert(c == whole[i as int]);
                } else {
                    assert(all[i - 1] == c);
                    assert(c == part[i - n - 1]);
                }
            }
            if c < '0' || c > '9' {
                proof {
                    if i < n {
                        assert(!text::is_digit(whole[i as int]));
                    } else {
                        assert(!text::is_digit(part[i - n - 1]));
                    }
                }
                return None;
            }
            d.push(c);
        }
        i = i + 1;
    }
    proof {
        assert(d@ =~= whole + part);
        assert forall|k: int| 0 <= k < whole.len() implies text::is_digit(#[trigger] whole[k]) by {
            assert(d@[k] == whole[k]);
        }
        assert forall|k: int| 0 <= k < part.len() implies text::is_digit(#[trigger] part[k]) by {
            assert(d@[whole.len() + k] == part[k]);
        }
    }
    if d.len() == 0 {
        return None;
    }
    let after: usize = if n < s.len() {
        s.len() - n - 1
    } else {
        0
    };
    let places: i128 = exponent - after as i128;
    let r: u32 = measure(d.as_slice(), places);
    proof {
        if exponent != x {
            lemma_far_is_far(d@, places as int, x - part.len());
        }
    }
    Some(r)
}

fn parse_unsigned_measure(s: &[char]) -> (r: Option<u32>)
    ensures
        match r {
            Some(v) => read_unsigned_measure(s@) == Some(v as nat) && v < 0x8000_0000,
            None => read_unsigned_measure(s@) is None,
        },
{
    if eq_ignore_case(s, chars_of("inf").as_slice()) || eq_ignore_case(
        s,
        chars_of("infinity").as_slice(),
    ) {
        return Some(0x7f80_0000);
    }
    if eq_ignore_case(s, chars_of("nan").as_slice()) {
        return Some(NAN);
    }
    let small: usize = crate::text::run_from(s, 0, Class::IsNot('e'));
    let large: usize = crate::text::run_from(s, 0, Class::IsNot('E'));
    assert(s@.skip(0) =~= s@);
    let n: usize = if small <= large {
        small
    } else {
        large
    };
    if n < s.len() {
        match parse_exponent(s, n + 1) {
            Some(e) => {
                let front = vstd::slice::slice_subrange(s, 0, n);
                assert(front@ =~= s@.take(n as int));
                let ghost x = read_exponent(s@.skip(n + 1))->0;
                parse_scaled(front, e, Ghost(x))
            },
            None => None,
        }
    } else {
        parse_scaled(s, 0, Ghost(0))
    }
}

/// A measurement read from text.
pub fn parse_measure(s: &[char]) -> (r: Option<u32>)
    ensures
        r == read_measure(s@),
{
    if s.len() > 0 && (s[0] == '-' || s[0] == '+') {
        let rest = vstd::slice::slice_subrange(s, 1, s.len());
        assert(rest@ =~= s@.drop_first());
        match parse_unsigned_measure(rest) {
            Some(v) => if s[0] == '-' {
                Some(0x8000_0000 + v)
            } else {
                Some(v)
            },
            None => None,
        }
    } else {
        parse_unsigned_measure(s)
    }
}

} // verus!
