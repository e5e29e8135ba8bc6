//! Natural numbers of any size, for sums and products that outgrow the
//! machine's integers.
//!
//! A number is held as its digits to the base 2^64, lowest first.

use vstd::prelude::*;
use vstd::arithmetic::div_mod::lemma_fundamental_div_mod_converse;

verus! {

/// The base of the digits.
pub open spec fn base() -> nat {
    0x1_0000_0000_0000_0000
}

/// `base()` to the power `i`: what one unit of digit `i` is worth.
pub open spec fn unit(i: nat) -> nat
    decreases i,
{
    if i == 0 {
        1
    } else {
        base() * unit((i - 1) as nat)
    }
}

/// The number that the digits spell, lowest digit first.
pub open spec fn value(digits: Seq<u64>) -> nat
    decreases digits.len(),
{
    if digits.len() == 0 {
        0
    } else {
        value(digits.drop_last()) + (digits.last() as nat) * unit((digits.len() - 1) as nat)
    }
}

proof fn lemma_unit_positive(i: nat)
    ensures
        unit(i) > 0,
    decreases i,
{
    if i > 0 {
        lemma_unit_positive((i - 1) as nat);
        assert(base() * unit((i - 1) as nat) > 0) by (nonlinear_arith)
            requires
                base() > 0,
                unit((i - 1) as nat) > 0,
        ;
    }
}

proof fn lemma_value_push(digits: Seq<u64>, d: u64)
    ensures
        value(digits.push(d)) == value(digits) + d * unit(digits.len()),
{
    assert(digits.push(d).drop_last() =~= digits);
}

proof fn lemma_value_take(digits: Seq<u64>, i: int)
    requires
        0 <= i < digits.len(),
    ensures
        value(digits.take(i + 1)) == value(digits.take(i)) + digits[i] * unit(i as nat),
{
    assert(digits.take(i + 1).drop_last() =~= digits.take(i));
}

proof fn lemma_value_bound(digits: Seq<u64>)
    ensures
        value(digits) < unit(digits.len()),
    decreases digits.len(),
{
    if digits.len() > 0 {
        lemma_value_bound(digits.drop_last());
        let u = unit((digits.len() - 1) as nat) as int;
        let v = value(digits.drop_last()) as int;
        let d = digits.last() as int;
        let b = base() as int;
        assert(v + d * u < b * u) by (nonlinear_arith)
            requires
                0 <= v < u,
                0 <= d < b,
        ;
    }
}

proof fn lemma_value_shift(digits: Seq<u64>)
    ensures
        value(seq![0u64] + digits) == base() * value(digits),
    decreases digits.len(),
{
    let shifted = seq![0u64] + digits;
    if digits.len() == 0 {
        assert(shifted.drop_last() =~= Seq::<u64>::empty());
        assert(value(shifted.drop_last()) == 0);
        assert(shifted.last() == 0);
        assert(0 * unit(0) == 0);
        assert(base() * 0 == 0);
    } else {
        lemma_value_shift(digits.drop_last());
        assert(shifted.drop_last() =~= seq![0u64] + digits.drop_last());
        assert(shifted.last() == digits.last());
        let u = unit((digits.len() - 1) as nat) as int;
        let v = value(digits.drop_last()) as int;
        let d = digits.last() as int;
        let b = base() as int;
        assert(b * v + d * (b * u) == b * (v + d * u)) by (nonlinear_arith);
    }
}

proof fn lemma_carry_step(out: int, carry: int, u: int, done: int, total: int, p: int)
    requires
        out + carry * u == done,
        p == total + carry,
        0 <= p,
    ensures
        out + (p % 0x1_0000_0000_0000_0000) * u + (p / 0x1_0000_0000_0000_0000) * (
        0x1_0000_0000_0000_0000 * u) == done + total * u,
{
    let b = 0x1_0000_0000_0000_0000int;
    let lo = p % b;
    let hi = p / b;
    assert(p == hi * b + lo);
    assert(lo * u + hi * (b * u) == (hi * b + lo) * u) by (nonlinear_arith);
    assert((total + carry) * u == total * u + carry * u) by (nonlinear_arith);
}

/// A natural number of any size.
#[derive(Debug)]
pub struct Natural {
    digits: Vec<u64>,
}

impl View for Natural {
    type V = nat;

    closed spec fn view(&self) -> nat {
        value(self.digits@)
    }
}

impl Natural {
    /// The number `x`.
    pub fn from_u64(x: u64) -> (res: Natural)
        ensures
            res@ == x,
    {
        let mut digits: Vec<u64> = Vec::new();
        digits.push(x);
        proof {
            lemma_value_push(Seq::<u64>::empty(), x);
            assert(Seq::<u64>::empty().push(x) =~= digits@);
            assert(x * unit(0) == x) by (nonlinear_arith)
                requires
                    unit(0) == 1,
            ;
        }
        Natural { digits }
    }

    /// The digits of the number, filled up with zeros to `len` digits.
    fn padded(&self, len: usize) -> (res: Vec<u64>)
        requires
            len >= self.digits@.len(),
        ensures
            res@.len() == len,
            value(res@) == self@,
    {
        let mut res: Vec<u64> = Vec::new();
        let mut i: usize = 0;
        while i < self.digits.len()
            invariant
                0 <= i <= self.digits@.len(),
                res@ == self.digits@.take(i as int),
            decreases self.digits@.len() - i,
        {
            res.push(self.digits[i]);
            proof {
                assert(self.digits@.take(i as int).push(self.digits@[i as int])
                    =~= self.digits@.take(i + 1));
            }
            i = i + 1;
        }
        proof {
            assert(self.digits@.take(i as int) =~= self.digits@);
        }
        while i < len
            invariant
                self.digits@.len() <= i <= len,
                res@.len() == i,
                value(res@) == self@,
            decreases len - i,
        {
            proof {
                lemma_value_push(res@, 0);
                assert(0 * unit(res@.len()) == 0);
            }
            res.push(0);
            i = i + 1;
        }
        res
    }

    /// The sum of two numbers.
    pub fn plus(&self, other: &Natural) -> (res: Natural)
        ensures
            res@ == self@ + other@,
    {
        let len = if self.digits.len() >= other.digits.len() {
            self.digits.len()
        } else {
            other.digits.len()
        };
        let a = self.padded(len);
        let b = other.padded(len);
        let mut out: Vec<u64> = Vec::new();
        let mut carry: u64 = 0;
        let mut i: usize = 0;
        proof {
            assert(a@.take(0) =~= Seq::<u64>::empty());
            assert(b@.take(0) =~= Seq::<u64>::empty());
            assert(0 * unit(0) == 0);
        }
        while i < len
            invariant
                0 <= i <= len,
                a@.len() == len,
                b@.len() == len,
                out@.len() == i,
                carry <= 1,
                value(out@) + carry * unit(i as nat) == value(a@.take(i as int)) + value(
                    b@.take(i as int),
                ),
            decreases len - i,
        {
            let p: u128 = a[i] as u128 + b[i] as u128 + carry as u128;
            proof {
                lemma_value_take(a@, i as int);
                lemma_value_take(b@, i as int);
                lemma_value_push(out@, (p % 0x1_0000_0000_0000_0000) as u64);
                let u = unit(i as nat) as int;
                assert((a@[i as int] + b@[i as int]) * u == a@[i as int] * u + b@[i as int] * u)
                    by (nonlinear_arith);
                lemma_carry_step(
                    value(out@) as int,
                    carry as int,
                    u,
                    (value(a@.take(i as int)) + value(b@.take(i as int))) as int,
                    a@[i as int] + b@[i as int],
                    p as int,
                );
            }
            out.push((p % 0x1_0000_0000_0000_0000) as u64);
            carry = (p / 0x1_0000_0000_0000_0000) as u64;
            i = i + 1;
        }
        proof {
            assert(a@.take(len as int) =~= a@);
            assert(b@.take(len as int) =~= b@);
            lemma_value_push(out@, carry);
        }
        out.push(carry);
        Natural { digits: out }
    }

    /// The number times `m`.
    pub fn times_u64(&self, m: u64) -> (res: Natural)
        ensures
            res@ == self@ * m,
    {
        let mut out: Vec<u64> = Vec::new();
        let mut carry: u64 = 0;
        let mut i: usize = 0;
        proof {
            assert(self.digits@.take(0) =~= Seq::<u64>::empty());
            assert(0 * unit(0) == 0);
            assert(0 * m == 0);
        }
        while i < self.digits.len()
            invariant
                0 <= i <= self.digits@.len(),
                out@.len() == i,
                value(out@) + carry * unit(i as nat) == value(self.digits@.take(i as int)) * m,
            decreases self.digits@.len() - i,
        {
            let d = self.digits[i];
            proof {
                assert(d * m + carry <= 0xFFFF_FFFF_FFFF_FFFF * 0xFFFF_FFFF_FFFF_FFFF
                    + 0xFFFF_FFFF_FFFF_FFFF) by (nonlinear_arith)
                    requires
                        0 <= d <= 0xFFFF_FFFF_FFFF_FFFF,
                        0 <= m <= 0xFFFF_FFFF_FFFF_FFFF,
                        0 <= carry <= 0xFFFF_FFFF_FFFF_FFFF,
                ;
            }
            let p: u128 = d as u128 * m as u128 + carry as u128;
            proof {
                lemma_value_take(self.digits@, i as int);
                lemma_value_push(out@, (p % 0x1_0000_0000_0000_0000) as u64);
                let u = unit(i as nat) as int;
                let done = value(self.digits@.take(i as int)) as int;
                assert((done + d * u) * m == done * m + (d * m) * u) by (nonlinear_arith);
                lemma_carry_step(
                    value(out@) as int,
                    carry as int,
                    u,
                    done * m,
                    d * m,
                    p as int,
                );
            }
            out.push((p % 0x1_0000_0000_0000_0000) as u64);
            carry = (p / 0x1_0000_0000_0000_0000) as u64;
            i = i + 1;
        }
        proof {
            assert(self.digits@.take(i as int) =~= self.digits@);
            lemma_value_push(out@, carry);
        }
        out.push(carry);
        Natural { digits: out }
    }

    /// The number times the base of the digits.
    fn shifted(&self) -> (res: Natural)
        ensures
            res@ == base() * self@,
    {
        let mut out: Vec<u64> = Vec::new();
        out.push(0);
        let mut i: usize = 0;
        while i < self.digits.len()
            invariant
                0 <= i <= self.digits@.len(),
                out@ == seq![0u64] + self.digits@.take(i as int),
            decreases self.digits@.len() - i,
        {
            out.push(self.digits[i]);
            proof {
                assert(out@ =~= seq![0u64] + self.digits@.take(i + 1));
            }
            i = i + 1;
        }
        proof {
            assert(self.digits@.take(i as int) =~= self.digits@);
            lemma_value_shift(self.digits@);
        }
        Natural { digits: out }
    }

    /// The number times `m`.
    pub fn times_u128(&self, m: u128) -> (res: Natural)
        ensures
            res@ == self@ * m,
    {
        let low = (m % 0x1_0000_0000_0000_0000) as u64;
        let high = (m / 0x1_0000_0000_0000_0000) as u64;
        let res = self.times_u64(low).plus(&self.times_u64(high).shifted());
        proof {
            let v = self@ as int;
            let b = base() as int;
            assert(m == high * b + low);
            assert(v * low + b * (v * high) == v * (high * b + low)) by (nonlinear_arith);
        }
        res
    }

    /// The difference of two numbers to as many digits as the longer of the
    /// two has, and whether the first number is the smaller one.
    fn minus_with_borrow(&self, other: &Natural) -> (res: (Natural, bool))
        ensures
            res.1 == (self@ < other@),
            !res.1 ==> res.0@ + other@ == self@,
    {
        let len = if self.digits.len() >= other.digits.len() {
            self.digits.len()
        } else {
            other.digits.len()
        };
        let a = self.padded(len);
        let b = other.padded(len);
        let mut out: Vec<u64> = Vec::new();
        let mut borrow: u64 = 0;
        let mut i: usize = 0;
        proof {
            assert(a@.take(0) =~= Seq::<u64>::empty());
            assert(b@.take(0) =~= Seq::<u64>::empty());
            assert(0 * unit(0) == 0);
        }
        while i < len
            invariant
                0 <= i <= len,
                a@.len() == len,
                b@.len() == len,
                out@.len() == i,
                borrow <= 1,
                value(out@) + value(b@.take(i as int)) == value(a@.take(i as int)) + borrow
                    * unit(i as nat),
            decreases len - i,
        {
            let d: u128 = 0x1_0000_0000_0000_0000 + a[i] as u128 - b[i] as u128 - borrow as u128;
            let digit = (d % 0x1_0000_0000_0000_0000) as u64;
            let next: u64 = if d < 0x1_0000_0000_0000_0000 {
                1
            } else {
                0
            };
            proof {
                lemma_value_take(a@, i as int);
                lemma_value_take(b@, i as int);
                lemma_value_push(out@, digit);
                let u = unit(i as nat) as int;
                let x = a@[i as int] as int;
                let y = b@[i as int] as int;
                let bo = borrow as int;
                let bs = base() as int;
                assert(unit((i + 1) as nat) == bs * u);
                if d < 0x1_0000_0000_0000_0000 {
                    assert(digit == bs + x - y - bo);
                    assert((bs + x - y - bo) * u + y * u == x * u + 1 * (bs * u) - bo * u)
                        by (nonlinear_arith);
                } else {
                    assert(digit == x - y - bo);
                    assert((x - y - bo) * u + y * u == x * u + 0 * (bs * u) - bo * u)
                        by (nonlinear_arith);
                }
            }
            out.push(digit);
            borrow = next;
            i = i + 1;
        }
        proof {
            assert(a@.take(len as int) =~= a@);
            assert(b@.take(len as int) =~= b@);
            lemma_value_bound(out@);
            lemma_unit_positive(len as nat);
        }
        (Natural { digits: out }, borrow == 1)
    }

    /// Whether the number is smaller than `other`.
    pub fn less_than(&self, other: &Natural) -> (res: bool)
        ensures
            res == (self@ < other@),
    {
        self.minus_with_borrow(other).1
    }

    /// Whether the number is zero.
    pub fn is_zero(&self) -> (res: bool)
        ensures
            res == (self@ == 0),
    {
        let zero = Natural::from_u64(0);
        !zero.less_than(self)
    }

    /// The number less `other`; `None` where `other` is the larger one.
    pub fn minus(&self, other: &Natural) -> (res: Option<Natural>)
        ensures
            match res {
                Some(difference) => other@ <= self@ && difference@ == self@ - other@,
                None => self@ < other@,
            },
    {
        let (difference, borrowed) = self.minus_with_borrow(other);
        if borrowed {
            None
        } else {
            Some(difference)
        }
    }

    /// The whole part of the quotient of the number by `divisor`; `None`
    /// where the divisor is zero or the quotient does not fit 64 bits.
    pub fn quotient(&self, divisor: &Natural) -> (res: Option<u64>)
        ensures
            match res {
                Some(q) => divisor@ > 0 && q == self@ / divisor@,
                None => divisor@ == 0 || self@ >= base() * divisor@,
            },
    {
        if divisor.is_zero() {
            return None;
        }
        let bound = divisor.shifted();
        if !self.less_than(&bound) {
            return None;
        }
        let mut low: u64 = 0;
        let mut high: u128 = 0x1_0000_0000_0000_0000;
        proof {
            assert(0 * divisor@ == 0);
        }
        while high - low as u128 > 1
            invariant
                low < high <= 0x1_0000_0000_0000_0000,
                divisor@ > 0,
                low * divisor@ <= self@ < high * divisor@,
            decreases high - low,
        {
            let mid: u64 = (low as u128 + (high - low as u128) / 2) as u64;
            let product = divisor.times_u64(mid);
            proof {
                assert(divisor@ * mid == mid * divisor@) by (nonlinear_arith);
            }
            if self.less_than(&product) {
                high = mid as u128;
            } else {
                low = mid;
            }
        }
        proof {
            let s = self@ as int;
            let d = divisor@ as int;
            let q = low as int;
            assert((q + 1) * d == q * d + d) by (nonlinear_arith);
            assert(d * q == q * d) by (nonlinear_arith);
            lemma_fundamental_div_mod_converse(s, d, q, s - q * d);
        }
        Some(low)
    }
}

} // verus!
