//! Arbitrary-precision natural numbers.
//!
//! A [`Natural`] is a little-endian vector of 32-bit limbs. Its view is the
//! mathematical natural number that the limbs denote, and every operation is
//! specified against that number alone: callers never see the limbs.

use vstd::prelude::*;

verus! {

/// The radix of the limb representation: `2^32`.
spec fn radix() -> nat {
    0x1_0000_0000
}

/// `radix()` raised to the power `n`.
spec fn radix_pow(n: nat) -> nat
    decreases n,
{
    if n == 0 {
        1
    } else {
        radix() * radix_pow((n - 1) as nat)
    }
}

/// The limb at position `i`, reading every position past the end as zero.
spec fn digit(limbs: Seq<u32>, i: int) -> nat {
    if 0 <= i < limbs.len() {
        limbs[i] as nat
    } else {
        0
    }
}

/// The number denoted by the `k` lowest positions of `limbs`.
spec fn value_below(limbs: Seq<u32>, k: nat) -> nat
    decreases k,
{
    if k == 0 {
        0
    } else {
        value_below(limbs, (k - 1) as nat) + digit(limbs, k - 1) * radix_pow((k - 1) as nat)
    }
}

/// The number denoted by a little-endian sequence of limbs.
spec fn limbs_value(limbs: Seq<u32>) -> nat {
    value_below(limbs, limbs.len())
}

proof fn lemma_radix_pow_positive(n: nat)
    ensures
        radix_pow(n) > 0,
    decreases n,
{
    if n > 0 {
        lemma_radix_pow_positive((n - 1) as nat);
        let p = radix_pow((n - 1) as nat);
        assert(0x1_0000_0000 * p > 0) by (nonlinear_arith)
            requires
                p > 0,
        ;
    }
}

/// `k` positions denote a number below `radix_pow(k)`.
proof fn lemma_value_below_bound(limbs: Seq<u32>, k: nat)
    ensures
        value_below(limbs, k) < radix_pow(k),
    decreases k,
{
    if k > 0 {
        lemma_value_below_bound(limbs, (k - 1) as nat);
        let p = radix_pow((k - 1) as nat);
        let d = digit(limbs, k - 1);
        assert(d * p + p <= 0x1_0000_0000 * p) by (nonlinear_arith)
            requires
                d <= 0xffff_ffff,
        ;
    }
}

/// Positions past the end add nothing.
proof fn lemma_value_below_saturates(limbs: Seq<u32>, k: nat)
    requires
        k >= limbs.len(),
    ensures
        value_below(limbs, k) == limbs_value(limbs),
    decreases k,
{
    if k > limbs.len() {
        lemma_value_below_saturates(limbs, (k - 1) as nat);
        let p = radix_pow((k - 1) as nat);
        assert(0 * p == 0) by (nonlinear_arith);
    }
}

/// A limb pushed at the end leaves the lower positions as they were.
proof fn lemma_value_below_push(limbs: Seq<u32>, d: u32, k: nat)
    requires
        k <= limbs.len(),
    ensures
        value_below(limbs.push(d), k) == value_below(limbs, k),
    decreases k,
{
    if k > 0 {
        lemma_value_below_push(limbs, d, (k - 1) as nat);
    }
}

/// A limb pushed at the end adds its digit times the weight of its position.
proof fn lemma_value_push(limbs: Seq<u32>, d: u32)
    ensures
        limbs_value(limbs.push(d)) == limbs_value(limbs) + d * radix_pow(limbs.len()),
{
    lemma_value_below_push(limbs, d, limbs.len());
}

/// A zero limb at the end can be dropped.
proof fn lemma_value_drop_zero(limbs: Seq<u32>)
    requires
        limbs.len() > 0,
        limbs.last() == 0,
    ensures
        limbs_value(limbs.drop_last()) == limbs_value(limbs),
{
    let rest = limbs.drop_last();
    assert(rest.push(0u32) =~= limbs);
    lemma_value_push(rest, 0u32);
    let p = radix_pow(rest.len());
    assert(0 * p == 0) by (nonlinear_arith);
}

proof fn lemma_radix_pow_monotonic(i: nat, j: nat)
    requires
        i <= j,
    ensures
        radix_pow(i) <= radix_pow(j),
    decreases j,
{
    if i < j {
        lemma_radix_pow_monotonic(i, (j - 1) as nat);
        lemma_radix_pow_positive((j - 1) as nat);
        let p = radix_pow((j - 1) as nat);
        assert(p <= 0x1_0000_0000 * p) by (nonlinear_arith)
            requires
                p > 0,
        ;
    }
}

/// Zero digits from position `k` on add nothing.
proof fn lemma_value_zero_above(limbs: Seq<u32>, k: nat, n: nat)
    requires
        k <= n,
        forall|i: int| k <= i < n ==> digit(limbs, i) == 0,
    ensures
        value_below(limbs, n) == value_below(limbs, k),
    decreases n,
{
    if k < n {
        lemma_value_zero_above(limbs, k, (n - 1) as nat);
        let p = radix_pow((n - 1) as nat);
        assert(0 * p == 0) by (nonlinear_arith);
    }
}

/// The number denoted by four limbs, written out.
proof fn lemma_value_of_four(limbs: Seq<u32>)
    ensures
        value_below(limbs, 4) == digit(limbs, 0) + digit(limbs, 1) * 0x1_0000_0000 + digit(
            limbs,
            2,
        ) * 0x1_0000_0000_0000_0000 + digit(limbs, 3) * 0x1_0000_0000_0000_0000_0000_0000,
        radix_pow(4) == 0x1_0000_0000_0000_0000_0000_0000_0000_0000,
{
    reveal_with_fuel(value_below, 5);
    reveal_with_fuel(radix_pow, 5);
    assert(radix_pow(0) == 1);
    assert(radix_pow(1) == 0x1_0000_0000);
    assert(radix_pow(2) == 0x1_0000_0000_0000_0000);
    assert(radix_pow(3) == 0x1_0000_0000_0000_0000_0000_0000);
    assert(radix_pow(4) == 0x1_0000_0000_0000_0000_0000_0000_0000_0000);
    let d0 = digit(limbs, 0);
    let d1 = digit(limbs, 1);
    let d2 = digit(limbs, 2);
    let d3 = digit(limbs, 3);
    assert(value_below(limbs, 1) == d0 * radix_pow(0));
    assert(value_below(limbs, 2) == value_below(limbs, 1) + d1 * radix_pow(1));
    assert(value_below(limbs, 3) == value_below(limbs, 2) + d2 * radix_pow(2));
    assert(value_below(limbs, 4) == value_below(limbs, 3) + d3 * radix_pow(3));
}

/// An arbitrary-precision natural number.
#[derive(Debug)]
pub struct Natural {
    limbs: Vec<u32>,
}

impl View for Natural {
    type V = nat;

    closed spec fn view(&self) -> nat {
        limbs_value(self.limbs@)
    }
}

impl Clone for Natural {
    fn clone(&self) -> (copy: Self)
        ensures
            copy@ == self@,
    {
        let mut limbs: Vec<u32> = Vec::new();
        let mut i: usize = 0;
        while i < self.limbs.len()
            invariant
                i <= self.limbs.len(),
                limbs@ == self.limbs@.take(i as int),
            decreases self.limbs.len() - i,
        {
            limbs.push(self.limbs[i]);
            i += 1;
        }
        assert(self.limbs@.take(i as int) =~= self.limbs@);
        Natural { limbs }
    }
}

impl Natural {
    /// Wraps a limb vector, discarding high zero limbs.
    fn from_limbs(limbs: Vec<u32>) -> (n: Natural)
        ensures
            n@ == limbs_value(limbs@),
    {
        let ghost given = limbs@;
        let mut limbs = limbs;
        while limbs.len() > 0 && limbs[limbs.len() - 1] == 0
            invariant
                limbs_value(limbs@) == limbs_value(given),
            decreases limbs.len(),
        {
            proof {
                lemma_value_drop_zero(limbs@);
            }
            limbs.pop();
        }
        Natural { limbs }
    }

    /// The number zero.
    pub fn zero() -> (n: Natural)
        ensures
            n@ == 0,
    {
        Natural { limbs: Vec::new() }
    }

    /// The natural number equal to `v`.
    pub fn from_u64(v: u64) -> (n: Natural)
        ensures
            n@ == v,
    {
        let low: u32 = (v % 0x1_0000_0000) as u32;
        let high: u32 = (v / 0x1_0000_0000) as u32;
        let mut limbs: Vec<u32> = Vec::new();
        limbs.push(low);
        limbs.push(high);
        proof {
            let empty = Seq::<u32>::empty();
            lemma_value_push(empty, low);
            lemma_value_push(empty.push(low), high);
            assert(limbs@ =~= empty.push(low).push(high));
            assert(radix_pow(1) == 0x1_0000_0000) by {
                reveal_with_fuel(radix_pow, 2);
            }
            assert(low * radix_pow(0) == low) by (nonlinear_arith)
                requires
                    radix_pow(0) == 1,
            ;
            assert(high * radix_pow(1) == high * 0x1_0000_0000) by (nonlinear_arith)
                requires
                    radix_pow(1) == 0x1_0000_0000,
            ;
            assert(limbs_value(empty) == 0);
        }
        Natural::from_limbs(limbs)
    }

    /// The natural number equal to `v`.
    pub fn from_u128(v: u128) -> (n: Natural)
        ensures
            n@ == v,
    {
        let d0: u32 = (v % 0x1_0000_0000) as u32;
        let d1: u32 = ((v / 0x1_0000_0000) % 0x1_0000_0000) as u32;
        let d2: u32 = ((v / 0x1_0000_0000_0000_0000) % 0x1_0000_0000) as u32;
        let d3: u32 = (v / 0x1_0000_0000_0000_0000_0000_0000) as u32;
        let mut limbs: Vec<u32> = Vec::new();
        limbs.push(d0);
        limbs.push(d1);
        limbs.push(d2);
        limbs.push(d3);
        proof {
            lemma_value_of_four(limbs@);
        }
        Natural::from_limbs(limbs)
    }

    /// The number as a machine integer, where it fits into one.
    pub fn to_u128(&self) -> (v: Option<u128>)
        ensures
            v is Some <==> self@ <= u128::MAX,
            v matches Some(n) ==> n == self@,
    {
        let len: usize = self.limbs.len();
        let mut i: usize = 4;
        while i < len
            invariant
                4 <= i,
                len == self.limbs.len(),
                forall|j: int| 4 <= j < i ==> digit(self.limbs@, j) == 0,
            decreases len - i,
        {
            if self.limbs[i] != 0 {
                proof {
                    lemma_value_above_digit(self.limbs@, i as nat, len as nat);
                    lemma_radix_pow_monotonic(4, i as nat);
                    lemma_value_of_four(self.limbs@);
                    let p = radix_pow(i as nat);
                    let d = digit(self.limbs@, i as int);
                    assert(d * p >= p) by (nonlinear_arith)
                        requires
                            d >= 1,
                            p >= 0,
                    ;
                }
                return None;
            }
            i += 1;
        }
        let d0: u128 = if 0 < len {
            self.limbs[0] as u128
        } else {
            0
        };
        let d1: u128 = if 1 < len {
            self.limbs[1] as u128
        } else {
            0
        };
        let d2: u128 = if 2 < len {
            self.limbs[2] as u128
        } else {
            0
        };
        let d3: u128 = if 3 < len {
            self.limbs[3] as u128
        } else {
            0
        };
        proof {
            lemma_value_of_four(self.limbs@);
            if len <= 4 {
                lemma_value_below_saturates(self.limbs@, 4);
            } else {
                lemma_value_zero_above(self.limbs@, 4, len as nat);
            }
        }
        Some(
            d0 + d1 * 0x1_0000_0000 + d2 * 0x1_0000_0000_0000_0000 + d3
                * 0x1_0000_0000_0000_0000_0000_0000,
        )
    }

    /// Whether the number is zero.
    pub fn is_zero(&self) -> (zero: bool)
        ensures
            zero == (self@ == 0),
    {
        let mut i: usize = 0;
        while i < self.limbs.len()
            invariant
                i <= self.limbs.len(),
                value_below(self.limbs@, i as nat) == 0,
            decreases self.limbs.len() - i,
        {
            if self.limbs[i] != 0 {
                proof {
                    lemma_value_above_digit(self.limbs@, i as nat, self.limbs.len() as nat);
                    lemma_radix_pow_positive(i as nat);
                    let p = radix_pow(i as nat);
                    let d = digit(self.limbs@, i as int);
                    assert(d * p > 0) by (nonlinear_arith)
                        requires
                            d > 0,
                            p > 0,
                    ;
                }
                return false;
            }
            proof {
                let p = radix_pow(i as nat);
                assert(0 * p == 0) by (nonlinear_arith);
            }
            i += 1;
        }
        true
    }

    /// Limb-wise subtraction with borrow.
    ///
    /// Returns the digits of `self - other` modulo `radix_pow(n)`, where `n` is
    /// the number of digits returned, and whether a borrow out of the highest
    /// position was needed, which is the case exactly when `self < other`.
    fn difference(&self, other: &Natural) -> (res: (Vec<u32>, bool))
        ensures
            res.1 == (self@ < other@),
            !res.1 ==> self@ == other@ + limbs_value(res.0@),
            res.1 ==> self@ + radix_pow(res.0@.len()) == other@ + limbs_value(res.0@),
    {
        let n: usize = if self.limbs.len() >= other.limbs.len() {
            self.limbs.len()
        } else {
            other.limbs.len()
        };
        let mut limbs: Vec<u32> = Vec::new();
        let mut borrow: u64 = 0;
        let mut i: usize = 0;
        while i < n
            invariant
                i <= n,
                n >= self.limbs.len(),
                n >= other.limbs.len(),
                limbs.len() == i,
                borrow <= 1,
                value_below(self.limbs@, i as nat) + borrow * radix_pow(i as nat) == value_below(
                    other.limbs@,
                    i as nat,
                ) + limbs_value(limbs@),
            decreases n - i,
        {
            let a: u64 = if i < self.limbs.len() {
                self.limbs[i] as u64
            } else {
                0
            };
            let b: u64 = if i < other.limbs.len() {
                other.limbs[i] as u64
            } else {
                0
            };
            let t: u64 = a + 0x1_0000_0000 - b - borrow;
            let next_borrow: u64 = if t < 0x1_0000_0000 {
                1
            } else {
                0
            };
            let low: u32 = (t % 0x1_0000_0000) as u32;
            proof {
                let p = radix_pow(i as nat);
                lemma_value_push(limbs@, low);
                assert(a == digit(self.limbs@, i as int));
                assert(b == digit(other.limbs@, i as int));
                assert(low + 0x1_0000_0000 - next_borrow * 0x1_0000_0000 == t);
                assert((a + next_borrow * 0x1_0000_0000) * p == (b + borrow + low) * p);
                assert((a + next_borrow * 0x1_0000_0000) * p == a * p + next_borrow * (
                0x1_0000_0000 * p)) by (nonlinear_arith);
                assert((b + borrow + low) * p == b * p + borrow * p + low * p)
                    by (nonlinear_arith);
            }
            limbs.push(low);
            borrow = next_borrow;
            i += 1;
        }
        proof {
            lemma_value_below_saturates(self.limbs@, n as nat);
            lemma_value_below_saturates(other.limbs@, n as nat);
            lemma_value_below_bound(self.limbs@, n as nat);
            lemma_value_below_bound(other.limbs@, n as nat);
            lemma_value_below_bound(limbs@, n as nat);
            let p = radix_pow(n as nat);
            assert(1 * p == p && 0 * p == 0) by (nonlinear_arith);
        }
        (limbs, borrow == 1)
    }

    /// Whether `self` is strictly less than `other`.
    pub fn lt(&self, other: &Natural) -> (less: bool)
        ensures
            less == (self@ < other@),
    {
        self.difference(other).1
    }

    /// Whether `self` and `other` denote the same number.
    pub fn eq(&self, other: &Natural) -> (same: bool)
        ensures
            same == (self@ == other@),
    {
        let (limbs, borrow) = self.difference(other);
        !borrow && Natural::from_limbs(limbs).is_zero()
    }

    /// The difference `self - other`, or `None` when `other` is the larger.
    pub fn checked_sub(&self, other: &Natural) -> (diff: Option<Natural>)
        ensures
            match diff {
                Some(d) => self@ >= other@ && d@ == self@ - other@,
                None => self@ < other@,
            },
    {
        let (limbs, borrow) = self.difference(other);
        if borrow {
            None
        } else {
            Some(Natural::from_limbs(limbs))
        }
    }

    /// The sum `self + other`.
    pub fn add(&self, other: &Natural) -> (sum: Natural)
        ensures
            sum@ == self@ + other@,
    {
        let n: usize = if self.limbs.len() >= other.limbs.len() {
            self.limbs.len()
        } else {
            other.limbs.len()
        };
        let mut limbs: Vec<u32> = Vec::new();
        let mut carry: u64 = 0;
        let mut i: usize = 0;
        while i < n
            invariant
                i <= n,
                n >= self.limbs.len(),
                n >= other.limbs.len(),
                limbs.len() == i,
                carry <= 1,
                limbs_value(limbs@) + carry * radix_pow(i as nat) == value_below(
                    self.limbs@,
                    i as nat,
                ) + value_below(other.limbs@, i as nat),
            decreases n - i,
        {
            let a: u64 = if i < self.limbs.len() {
                self.limbs[i] as u64
            } else {
                0
            };
            let b: u64 = if i < other.limbs.len() {
                other.limbs[i] as u64
            } else {
                0
            };
            let t: u64 = a + b + carry;
            let low: u32 = (t % 0x1_0000_0000) as u32;
            let high: u64 = t / 0x1_0000_0000;
            proof {
                let p = radix_pow(i as nat);
                lemma_value_push(limbs@, low);
                assert(a == digit(self.limbs@, i as int));
                assert(b == digit(other.limbs@, i as int));
                assert((low + high * 0x1_0000_0000) * p == (a + b + carry) * p);
                assert((low + high * 0x1_0000_0000) * p == low * p + high * (0x1_0000_0000 * p))
                    by (nonlinear_arith);
                assert((a + b + carry) * p == a * p + b * p + carry * p) by (nonlinear_arith);
            }
            limbs.push(low);
            carry = high;
            i += 1;
        }
        proof {
            lemma_value_below_saturates(self.limbs@, n as nat);
            lemma_value_below_saturates(other.limbs@, n as nat);
            lemma_value_push(limbs@, carry as u32);
        }
        limbs.push(carry as u32);
        Natural::from_limbs(limbs)
    }

    /// The product of `self` and a single limb.
    fn mul_limb(&self, d: u32) -> (product: Natural)
        ensures
            product@ == self@ * d,
    {
        let mut limbs: Vec<u32> = Vec::new();
        let mut carry: u64 = 0;
        let mut i: usize = 0;
        proof {
            assert(0 * d == 0 && 0 * radix_pow(0) == 0) by (nonlinear_arith);
        }
        while i < self.limbs.len()
            invariant
                i <= self.limbs.len(),
                limbs.len() == i,
                carry < 0x1_0000_0000,
                limbs_value(limbs@) + carry * radix_pow(i as nat) == value_below(
                    self.limbs@,
                    i as nat,
                ) * d,
            decreases self.limbs.len() - i,
        {
            let a: u64 = self.limbs[i] as u64;
            assert(a * d <= 0xffff_ffff * 0xffff_ffff) by (nonlinear_arith)
                requires
                    a <= 0xffff_ffff,
                    d <= 0xffff_ffff,
            ;
            let t: u64 = a * (d as u64) + carry;
            let low: u32 = (t % 0x1_0000_0000) as u32;
            let high: u64 = t / 0x1_0000_0000;
            proof {
                let p = radix_pow(i as nat);
                let below = value_below(self.limbs@, i as nat);
                lemma_value_push(limbs@, low);
                assert((low + high * 0x1_0000_0000) * p == (a * d + carry) * p);
                assert((low + high * 0x1_0000_0000) * p == low * p + high * (0x1_0000_0000 * p))
                    by (nonlinear_arith);
                assert((a * d + carry) * p == (a * p) * d + carry * p) by (nonlinear_arith);
                assert((below + a * p) * d == below * d + (a * p) * d) by (nonlinear_arith);
            }
            limbs.push(low);
            carry = high;
            i += 1;
        }
        proof {
            lemma_value_push(limbs@, carry as u32);
        }
        limbs.push(carry as u32);
        Natural::from_limbs(limbs)
    }

    /// The product of `self` and the radix: every limb moves up one position.
    fn shifted(&self) -> (product: Natural)
        ensures
            product@ == self@ * radix(),
    {
        let mut limbs: Vec<u32> = Vec::new();
        limbs.push(0);
        proof {
            lemma_value_push(Seq::<u32>::empty(), 0u32);
            assert(limbs@ =~= Seq::<u32>::empty().push(0u32));
            assert(0 * radix_pow(0) == 0) by (nonlinear_arith);
            assert(0 * radix() == 0) by (nonlinear_arith);
        }
        let mut i: usize = 0;
        while i < self.limbs.len()
            invariant
                i <= self.limbs.len(),
                limbs.len() == i + 1,
                limbs_value(limbs@) == value_below(self.limbs@, i as nat) * radix(),
            decreases self.limbs.len() - i,
        {
            let a: u32 = self.limbs[i];
            proof {
                let p = radix_pow(i as nat);
                let below = value_below(self.limbs@, i as nat);
                lemma_value_push(limbs@, a);
                assert(radix_pow((i + 1) as nat) == radix() * p);
                assert((below + a * p) * radix() == below * radix() + a * (radix() * p))
                    by (nonlinear_arith);
            }
            limbs.push(a);
            i += 1;
        }
        Natural { limbs }
    }

    /// The product `self * other`.
    pub fn mul(&self, other: &Natural) -> (product: Natural)
        ensures
            product@ == self@ * other@,
    {
        let mut total = Natural::zero();
        let mut scaled = self.clone();
        let mut i: usize = 0;
        proof {
            assert(self@ * 0 == 0) by (nonlinear_arith);
            assert(self@ * 1 == self@) by (nonlinear_arith);
        }
        while i < other.limbs.len()
            invariant
                i <= other.limbs.len(),
                scaled@ == self@ * radix_pow(i as nat),
                total@ == self@ * value_below(other.limbs@, i as nat),
            decreases other.limbs.len() - i,
        {
            let d: u32 = other.limbs[i];
            let row = scaled.mul_limb(d);
            proof {
                let p = radix_pow(i as nat);
                let below = value_below(other.limbs@, i as nat);
                let s = self@;
                assert(s * below + (s * p) * d == s * (below + d * p)) by (nonlinear_arith);
                assert((s * p) * radix() == s * (radix() * p)) by (nonlinear_arith);
            }
            total = total.add(&row);
            scaled = scaled.shifted();
            i += 1;
        }
        total
    }
}

/// A nonzero digit at position `i` makes the value at least that digit's weight.
proof fn lemma_value_above_digit(limbs: Seq<u32>, i: nat, k: nat)
    requires
        i < k,
    ensures
        value_below(limbs, k) >= digit(limbs, i as int) * radix_pow(i),
    decreases k,
{
    if k > i + 1 {
        lemma_value_above_digit(limbs, i, (k - 1) as nat);
    }
}

} // verus!
