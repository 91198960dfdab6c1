//! Natural numbers of any size, as far as exact comparisons need them.

use vstd::prelude::*;

verus! {

pub open spec fn two_to(n: nat) -> nat
    decreases n,
{
    if n == 0 {
        1
    } else {
        2 * two_to((n - 1) as nat)
    }
}

pub open spec fn ten_to(n: nat) -> nat
    decreases n,
{
    if n == 0 {
        1
    } else {
        10 * ten_to((n - 1) as nat)
    }
}

pub proof fn lemma_two_to_sum(a: nat, b: nat)
    ensures
        two_to(a + b) == two_to(a) * two_to(b),
        two_to(a) > 0,
    decreases a,
{
    if a > 0 {
        lemma_two_to_sum((a - 1) as nat, b);
        let p = two_to((a - 1) as nat);
        let q = two_to(b);
        assert(two_to(a + b) == 2 * two_to((a - 1 + b) as nat));
        assert(2 * (p * q) == (2 * p) * q) by (nonlinear_arith);
    } else {
        assert(1 * two_to(b) == two_to(b));
    }
}

pub proof fn lemma_two_to_grows(a: nat, b: nat)
    requires
        a <= b,
    ensures
        two_to(a) <= two_to(b),
        two_to(a) > 0,
    decreases b,
{
    if a < b {
        lemma_two_to_grows(a, (b - 1) as nat);
    } else {
        lemma_two_to_sum(a, 0);
    }
}

pub proof fn lemma_ten_to_sum(a: nat, b: nat)
    ensures
        ten_to(a + b) == ten_to(a) * ten_to(b),
        ten_to(a) > 0,
    decreases a,
{
    if a > 0 {
        lemma_ten_to_sum((a - 1) as nat, b);
        let p = ten_to((a - 1) as nat);
        let q = ten_to(b);
        assert(ten_to(a + b) == 10 * ten_to((a - 1 + b) as nat));
        assert(10 * (p * q) == (10 * p) * q) by (nonlinear_arith);
    } else {
        assert(1 * ten_to(b) == ten_to(b));
    }
}

/// Ten is more than two three times over.
pub proof fn lemma_ten_over_two(n: nat)
    ensures
        ten_to(n) >= two_to(3 * n),
    decreases n,
{
    if n > 0 {
        lemma_ten_over_two((n - 1) as nat);
        reveal_with_fuel(two_to, 4);
        assert(two_to(3 * n) == 8 * two_to((3 * n - 3) as nat));
    }
}

proof fn lemma_small_powers()
    ensures
        two_to(20) == 0x10_0000,
        two_to(23) == 0x80_0000,
        two_to(31) == 0x8000_0000,
        two_to(32) == 0x1_0000_0000,
{
    reveal_with_fuel(two_to, 33);
}

pub proof fn lemma_powers()
    ensures
        two_to(23) == 0x80_0000,
        two_to(31) == 0x8000_0000,
        two_to(32) == 0x1_0000_0000,
        two_to(52) == 0x10_0000_0000_0000,
        two_to(63) == 0x8000_0000_0000_0000,
        two_to(64) == 0x1_0000_0000_0000_0000,
        two_to(104) == 0x100_0000_0000_0000_0000_0000_0000,
{
    lemma_small_powers();
    lemma_two_to_sum(20, 32);
    lemma_two_to_sum(31, 32);
    lemma_two_to_sum(32, 32);
    assert(two_to(52) == 0x10_0000_0000_0000);
    lemma_two_to_sum(52, 52);
}

/// Two, doubled some times over, as far as it fits.
pub fn power_of_two(n: usize) -> (r: u64)
    requires
        n < 64,
    ensures
        r == two_to(n as nat),
{
    let mut r: u64 = 1;
    let mut i: usize = 0;
    while i < n
        invariant
            i <= n < 64,
            r == two_to(i as nat),
        decreases n - i,
    {
        proof {
            lemma_two_to_grows((i + 1) as nat, 63);
            lemma_powers();
        }
        r = r * 2;
        i = i + 1;
    }
    r
}

/// The place of a limb.
pub open spec fn place(i: nat) -> nat {
    two_to(32 * i)
}

proof fn lemma_place(i: nat)
    ensures
        place(i + 1) == 0x1_0000_0000 * place(i),
        place(i) > 0,
        place(0) == 1,
{
    lemma_two_to_sum(32, 32 * i);
    lemma_two_to_sum(32 * i, 0);
    lemma_powers();
}

/// A limb, or nothing beyond the last.
pub open spec fn limb(s: Seq<u32>, i: int) -> nat {
    if 0 <= i < s.len() {
        s[i] as nat
    } else {
        0
    }
}

/// What the lowest limbs are worth.
pub open spec fn low(s: Seq<u32>, n: nat) -> nat
    decreases n,
{
    if n == 0 {
        0
    } else {
        low(s, (n - 1) as nat) + limb(s, n - 1) * place((n - 1) as nat)
    }
}

proof fn lemma_low_bound(s: Seq<u32>, n: nat)
    ensures
        low(s, n) < place(n),
    decreases n,
{
    lemma_place(n);
    if n > 0 {
        let m = (n - 1) as nat;
        lemma_low_bound(s, m);
        lemma_place(m);
        let p = place(m);
        let x = limb(s, n - 1);
        assert(x * p <= 0xffff_ffff * p) by (nonlinear_arith)
            requires
                x <= 0xffff_ffff,
        ;
    }
}

/// Nothing is worth anything beyond the last limb.
proof fn lemma_low_beyond(s: Seq<u32>, n: nat)
    requires
        n >= s.len(),
    ensures
        low(s, n) == low(s, s.len()),
    decreases n,
{
    if n > s.len() {
        lemma_low_beyond(s, (n - 1) as nat);
        assert(limb(s, n - 1) * place((n - 1) as nat) == 0) by (nonlinear_arith)
            requires
                limb(s, n - 1) == 0,
        ;
    }
}

/// One limb more leaves the lower ones what they are worth.
proof fn lemma_low_same(s: Seq<u32>, x: u32, n: nat)
    requires
        n <= s.len(),
    ensures
        low(s.push(x), n) == low(s, n),
    decreases n,
{
    if n > 0 {
        lemma_low_same(s, x, (n - 1) as nat);
        assert(limb(s.push(x), n - 1) == limb(s, n - 1));
    }
}

proof fn lemma_low_push(s: Seq<u32>, x: u32)
    ensures
        low(s.push(x), s.len()) == low(s, s.len()),
        low(s.push(x), s.len() + 1) == low(s, s.len()) + x * place(s.len()),
{
    lemma_low_same(s, x, s.len());
    assert(limb(s.push(x), s.len() as int) == x);
}

/// Where one number stands beside another.
#[derive(Clone, Copy, PartialEq, Eq, Structural)]
pub enum Side {
    Below,
    Level,
    Above,
}

pub open spec fn side_of(a: nat, b: nat) -> Side {
    if a < b {
        Side::Below
    } else if a == b {
        Side::Level
    } else {
        Side::Above
    }
}

/// A natural number of any size.
pub struct Natural {
    limbs: Vec<u32>,
}

impl View for Natural {
    type V = nat;

    closed spec fn view(&self) -> nat {
        low(self.limbs@, self.limbs@.len())
    }
}

impl Natural {
    /// A number, doubled some times over.
    pub fn shifted(m: u64, k: usize) -> (r: Self)
        ensures
            r@ == m * two_to(k as nat),
    {
        let mut limbs: Vec<u32> = Vec::new();
        let whole: usize = k / 32;
        let rest: usize = k % 32;
        let mut i: usize = 0;
        while i < whole
            invariant
                i <= whole,
                limbs@.len() == i,
                low(limbs@, i as nat) == 0,
            decreases whole - i,
        {
            proof {
                lemma_low_push(limbs@, 0);
                assert(0 * place(i as nat) == 0) by (nonlinear_arith);
            }
            limbs.push(0);
            i = i + 1;
        }
        let factor: u128 = power_of_two(rest) as u128;
        proof {
            lemma_two_to_grows(rest as nat, 31);
            lemma_powers();
        }
        assert(m * factor <= 0xffff_ffff_ffff_ffff * 0x8000_0000) by (nonlinear_arith)
            requires
                0 <= m <= 0xffff_ffff_ffff_ffff,
                0 <= factor <= 0x8000_0000,
        ;
        let w: u128 = m as u128 * factor;
        assert(w < 0x1_0000_0000_0000_0000_0000_0000);
        let w0: u32 = (w % 0x1_0000_0000) as u32;
        let h: u128 = w / 0x1_0000_0000;
        let w1: u32 = (h % 0x1_0000_0000) as u32;
        let w2: u32 = (h / 0x1_0000_0000) as u32;
        let ghost base = limbs@;
        limbs.push(w0);
        limbs.push(w1);
        limbs.push(w2);
        proof {
            let n = whole as nat;
            let p = place(n);
            let s1 = base.push(w0);
            let s2 = s1.push(w1);
            lemma_low_push(base, w0);
            lemma_low_push(s1, w1);
            lemma_low_push(s2, w2);
            lemma_place(n);
            lemma_place(n + 1);
            assert(h < 0x1_0000_0000_0000_0000);
            assert(w == w0 + 0x1_0000_0000 * h);
            assert(h == w1 + 0x1_0000_0000 * w2);
            assert(w0 * p + w1 * (0x1_0000_0000 * p) + w2 * (0x1_0000_0000 * (0x1_0000_0000 * p))
                == w * p) by (nonlinear_arith)
                requires
                    w == w0 + 0x1_0000_0000 * h,
                    h == w1 + 0x1_0000_0000 * w2,
            ;
            lemma_two_to_sum(rest as nat, 32 * n);
            let f = two_to(rest as nat);
            assert((m * f) * p == m * (f * p)) by (nonlinear_arith);
            assert(32 * n + rest == k);
        }
        Natural { limbs }
    }

    /// A number times another, and some more.
    pub fn times_plus(&self, k: u32, more: u32) -> (r: Self)
        ensures
            r@ == self@ * k + more,
    {
        let ghost s = self.limbs@;
        let mut out: Vec<u32> = Vec::new();
        let mut carry: u64 = more as u64;
        let mut i: usize = 0;
        proof {
            lemma_place(0);
            assert(carry * 1 == carry);
            assert(0 * k == 0) by (nonlinear_arith);
        }
        while i < self.limbs.len()
            invariant
                s == self.limbs@,
                i <= s.len(),
                out@.len() == i,
                carry <= 0xffff_ffff,
                low(out@, i as nat) + carry * place(i as nat) == low(s, i as nat) * k + more,
            decreases s.len() - i,
        {
            let x: u64 = self.limbs[i] as u64;
            assert(x * k + carry <= 0xffff_ffff * 0xffff_ffff + 0xffff_ffff) by (nonlinear_arith)
                requires
                    0 <= x <= 0xffff_ffff,
                    0 <= k <= 0xffff_ffff,
                    0 <= carry <= 0xffff_ffff,
            ;
            assert(0 <= x * k) by (nonlinear_arith)
                requires
                    0 <= x,
                    0 <= k,
            ;
            let w: u64 = x * k as u64 + carry;
            let digit: u32 = (w % 0x1_0000_0000) as u32;
            let next: u64 = w / 0x1_0000_0000;
            let ghost before = out@;
            out.push(digit);
            proof {
                let n = i as nat;
                let p = place(n);
                lemma_place(n);
                lemma_low_push(before, digit);
                assert(limb(s, i as int) == x);
                let l = low(s, n);
                assert(digit * p + next * (0x1_0000_0000 * p) == (x * k + carry) * p)
                    by (nonlinear_arith)
                    requires
                        x * k + carry == digit + 0x1_0000_0000 * next,
                ;
                assert((x * k + carry) * p == (x * p) * k + carry * p) by (nonlinear_arith);
                assert((l + x * p) * k == l * k + (x * p) * k) by (nonlinear_arith);
            }
            carry = next;
            i = i + 1;
        }
        let ghost before = out@;
        out.push(carry as u32);
        proof {
            lemma_low_push(before, carry as u32);
        }
        Natural { limbs: out }
    }

    /// A number, doubled some more times over.
    pub fn doubled(&self, times: usize) -> (r: Self)
        ensures
            r@ == self@ * two_to(times as nat),
    {
        let mut out = self.times_plus(1, 0);
        let mut i: usize = 0;
        while i < times
            invariant
                i <= times,
                out@ == self@ * two_to(i as nat),
            decreases times - i,
        {
            let ghost v = self@;
            let ghost p = two_to(i as nat);
            if times - i >= 16 {
                proof {
                    lemma_two_to_sum(16, i as nat);
                    assert(two_to(16) == 0x1_0000) by {
                        reveal_with_fuel(two_to, 17);
                    }
                    assert((v * p) * 0x1_0000 == v * (0x1_0000 * p)) by (nonlinear_arith);
                }
                out = out.times_plus(0x1_0000, 0);
                i = i + 16;
            } else {
                proof {
                    assert((v * p) * 2 == v * (2 * p)) by (nonlinear_arith);
                }
                out = out.times_plus(2, 0);
                i = i + 1;
            }
        }
        out
    }

    /// A number times ten, some times over.
    pub fn tenfold(&self, times: u128) -> (r: Self)
        ensures
            r@ == self@ * ten_to(times as nat),
    {
        let mut out = self.times_plus(1, 0);
        let mut i: u128 = 0;
        while i < times
            invariant
                i <= times,
                out@ == self@ * ten_to(i as nat),
            decreases times - i,
        {
            proof {
                let v = self@;
                let p = ten_to(i as nat);
                assert((v * p) * 10 == v * (10 * p)) by (nonlinear_arith);
            }
            out = out.times_plus(10, 0);
            i = i + 1;
        }
        out
    }

    fn limb_at(&self, i: usize) -> (r: u32)
        ensures
            r == limb(self.limbs@, i as int),
    {
        if i < self.limbs.len() {
            self.limbs[i]
        } else {
            0
        }
    }

    /// Where a number stands beside another.
    pub fn beside(&self, other: &Natural) -> (r: Side)
        ensures
            r == side_of(self@, other@),
    {
        let ghost s = self.limbs@;
        let ghost t = other.limbs@;
        let n: usize = if self.limbs.len() < other.limbs.len() {
            other.limbs.len()
        } else {
            self.limbs.len()
        };
        let mut r = Side::Level;
        let mut i: usize = 0;
        while i < n
            invariant
                s == self.limbs@,
                t == other.limbs@,
                i <= n,
                r == side_of(low(s, i as nat), low(t, i as nat)),
            decreases n - i,
        {
            let a: u32 = self.limb_at(i);
            let b: u32 = other.limb_at(i);
            proof {
                let m = i as nat;
                let p = place(m);
                lemma_low_bound(s, m);
                lemma_low_bound(t, m);
                if a < b {
                    assert(a * p + p <= b * p) by (nonlinear_arith)
                        requires
                            a + 1 <= b,
                            p >= 0,
                    ;
                } else if a > b {
                    assert(b * p + p <= a * p) by (nonlinear_arith)
                        requires
                            b + 1 <= a,
                            p >= 0,
                    ;
                }
            }
            if a < b {
                r = Side::Below;
            } else if a > b {
                r = Side::Above;
            }
            i = i + 1;
        }
        proof {
            lemma_low_beyond(s, n as nat);
            lemma_low_beyond(t, n as nat);
        }
        r
    }

    /// A number and another together.
    pub fn plus(&self, other: &Natural) -> (r: Self)
        ensures
            r@ == self@ + other@,
    {
        let ghost s = self.limbs@;
        let ghost t = other.limbs@;
        let n: usize = if self.limbs.len() < other.limbs.len() {
            other.limbs.len()
        } else {
            self.limbs.len()
        };
        let mut out: Vec<u32> = Vec::new();
        let mut carry: u64 = 0;
        let mut i: usize = 0;
        assert(0 * place(0) == 0) by (nonlinear_arith);
        while i < n
            invariant
                s == self.limbs@,
                t == other.limbs@,
                i <= n,
                out@.len() == i,
                carry <= 1,
                low(s, i as nat) + low(t, i as nat) == low(out@, i as nat) + carry * place(i as nat),
            decreases n - i,
        {
            let a: u64 = self.limb_at(i) as u64;
            let b: u64 = other.limb_at(i) as u64;
            let w: u64 = a + b + carry;
            let digit: u32 = (w % 0x1_0000_0000) as u32;
            let next: u64 = w / 0x1_0000_0000;
            let ghost before = out@;
            out.push(digit);
            proof {
                let m = i as nat;
                let p = place(m);
                lemma_place(m);
                lemma_low_push(before, digit);
                assert(a * p + b * p + carry * p == digit * p + next * (0x1_0000_0000 * p))
                    by (nonlinear_arith)
                    requires
                        a + b + carry == digit + 0x1_0000_0000 * next,
                ;
            }
            carry = next;
            i = i + 1;
        }
        let ghost before = out@;
        out.push(carry as u32);
        proof {
            lemma_low_push(before, carry as u32);
            lemma_low_beyond(s, n as nat);
            lemma_low_beyond(t, n as nat);
        }
        Natural { limbs: out }
    }

    /// What is left of a number once a smaller one is taken off.
    pub fn minus(&self, other: &Natural) -> (r: Self)
        requires
            self@ >= other@,
        ensures
            r@ == self@ - other@,
    {
        let ghost s = self.limbs@;
        let ghost t = other.limbs@;
        let n: usize = if self.limbs.len() < other.limbs.len() {
            other.limbs.len()
        } else {
            self.limbs.len()
        };
        let mut out: Vec<u32> = Vec::new();
        let mut borrow: i64 = 0;
        let mut i: usize = 0;
        while i < n
            invariant
                s == self.limbs@,
                t == other.limbs@,
                i <= n,
                out@.len() == i,
                borrow == 0 || borrow == 1,
                low(s, i as nat) + borrow * place(i as nat) == low(t, i as nat) + low(
                    out@,
                    i as nat,
                ),
            decreases n - i,
        {
            let a: i64 = self.limb_at(i) as i64;
            let b: i64 = other.limb_at(i) as i64;
            let d: i64 = a - b - borrow;
            let next: i64 = if d < 0 {
                1
            } else {
                0
            };
            let digit: u32 = (d + next * 0x1_0000_0000) as u32;
            let ghost before = out@;
            out.push(digit);
            proof {
                let m = i as nat;
                let p = place(m);
                lemma_place(m);
                lemma_low_push(before, digit);
                assert(a * p + next * (0x1_0000_0000 * p) == b * p + digit * p + borrow * p)
                    by (nonlinear_arith)
                    requires
                        digit == a - b - borrow + next * 0x1_0000_0000,
                ;
            }
            borrow = next;
            i = i + 1;
        }
        proof {
            lemma_low_beyond(s, n as nat);
            lemma_low_beyond(t, n as nat);
            lemma_low_bound(out@, n as nat);
            lemma_place(n as nat);
        }
        Natural { limbs: out }
    }
}

} // verus!
