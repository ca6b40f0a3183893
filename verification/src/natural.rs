//! Natural numbers of any size.

use vstd::arithmetic::power2::*;
use vstd::prelude::*;

verus! {

/// A natural number, held as base 2^32 digits with the least significant first.
pub struct Natural {
    limbs: Vec<u32>,
}

/// The digit at place `i`; beyond the digits that are held every place is zero.
pub open spec fn limb(limbs: Seq<u32>, i: int) -> nat {
    if 0 <= i < limbs.len() {
        limbs[i] as nat
    } else {
        0
    }
}

/// The number that the `count` lowest digits stand for.
pub open spec fn low_value(limbs: Seq<u32>, count: nat) -> nat
    decreases count,
{
    if count == 0 {
        0
    } else {
        let i = (count - 1) as nat;
        low_value(limbs, i) + limb(limbs, i as int) * pow2(32 * i)
    }
}

proof fn lemma_low_value_bound(limbs: Seq<u32>, count: nat)
    ensures
        low_value(limbs, count) < pow2(32 * count),
    decreases count,
{
    if count == 0 {
        lemma2_to64();
    } else {
        let i = (count - 1) as nat;
        lemma_low_value_bound(limbs, i);
        lemma2_to64();
        lemma_pow2_adds(32, 32 * i);
        assert(32 + 32 * i == 32 * count);
        let d = limb(limbs, i as int);
        let p = pow2(32 * i);
        assert((d + 1) * p <= 0x1_0000_0000 * p) by (nonlinear_arith)
            requires
                d + 1 <= 0x1_0000_0000,
        ;
        assert((d + 1) * p == d * p + p) by (nonlinear_arith);
    }
}

proof fn lemma_low_value_prefix(a: Seq<u32>, b: Seq<u32>, count: nat)
    requires
        forall|i: int| 0 <= i < count ==> limb(a, i) == limb(b, i),
    ensures
        low_value(a, count) == low_value(b, count),
    decreases count,
{
    if count > 0 {
        lemma_low_value_prefix(a, b, (count - 1) as nat);
    }
}

proof fn lemma_low_value_beyond(limbs: Seq<u32>, count: nat)
    requires
        limbs.len() <= count,
    ensures
        low_value(limbs, count) == low_value(limbs, limbs.len()),
    decreases count,
{
    if count > limbs.len() {
        let i = (count - 1) as nat;
        lemma_low_value_beyond(limbs, i);
        assert(limb(limbs, i as int) * pow2(32 * i) == 0) by (nonlinear_arith)
            requires
                limb(limbs, i as int) == 0,
        ;
    }
}

impl View for Natural {
    type V = nat;

    closed spec fn view(&self) -> nat {
        low_value(self.limbs@, self.limbs@.len())
    }
}

impl Natural {
    /// The number zero.
    pub fn zero() -> (n: Natural)
        ensures
            n@ == 0,
    {
        Natural { limbs: Vec::new() }
    }

    /// The number `value`.
    pub fn from_u128(value: u128) -> (n: Natural)
        ensures
            n@ == value,
    {
        let mut limbs: Vec<u32> = Vec::new();
        push_rest(&mut limbs, value);
        proof {
            lemma2_to64();
            assert(value * pow2(0) == value);
        }
        Natural { limbs }
    }

    /// The number `self * factor + addend`.
    pub fn mul_add(&self, factor: u64, addend: u64) -> (n: Natural)
        ensures
            n@ == self@ * factor + addend,
    {
        let mut limbs: Vec<u32> = Vec::new();
        let mut carry: u128 = addend as u128;
        let mut i: usize = 0;
        proof {
            lemma2_to64();
            assert(carry * pow2(0) == carry);
            assert(low_value(self.limbs@, 0) * factor == 0) by (nonlinear_arith)
                requires
                    low_value(self.limbs@, 0) == 0,
            ;
        }
        while i < self.limbs.len()
            invariant
                i <= self.limbs@.len(),
                limbs@.len() == i,
                carry <= 0x1_0000_0000_0000_0000,
                low_value(limbs@, i as nat) + carry * pow2((32 * i) as nat) == low_value(
                    self.limbs@,
                    i as nat,
                ) * factor + addend,
            decreases self.limbs@.len() - i,
        {
            let digit: u32 = self.limbs[i];
            assert(digit * factor <= 0xffff_ffff * 0xffff_ffff_ffff_ffff) by (nonlinear_arith)
                requires
                    digit <= 0xffff_ffff,
                    factor <= 0xffff_ffff_ffff_ffff,
            ;
            let total: u128 = digit as u128 * factor as u128 + carry;
            let low: u32 = (total % 0x1_0000_0000) as u32;
            let ghost before = limbs@;
            let ghost old_carry = carry;
            limbs.push(low);
            carry = total / 0x1_0000_0000;
            proof {
                let p = pow2((32 * i) as nat);
                lemma2_to64();
                lemma_pow2_adds(32, (32 * i) as nat);
                assert(32 + 32 * i == 32 * (i + 1));
                lemma_low_value_prefix(before, limbs@, i as nat);
                assert(limb(limbs@, i as int) == low);
                assert(limb(self.limbs@, i as int) == digit);
                assert(low * p + carry * (0x1_0000_0000 * p) == total * p) by (nonlinear_arith)
                    requires
                        total == carry * 0x1_0000_0000 + low,
                ;
                let v = low_value(self.limbs@, i as nat);
                assert((v + digit * p) * factor == v * factor + (digit * factor) * p)
                    by (nonlinear_arith);
                assert(total * p == (digit * factor) * p + old_carry * p) by (nonlinear_arith)
                    requires
                        total == digit * factor + old_carry,
                ;
            }
            i += 1;
        }
        push_rest(&mut limbs, carry);
        Natural { limbs }
    }

    /// Whether `self` is at most `other`.
    pub fn at_most(&self, other: &Natural) -> (r: bool)
        ensures
            r == (self@ <= other@),
    {
        let mut r: bool = true;
        let mut i: usize = 0;
        while i < self.limbs.len() || i < other.limbs.len()
            invariant
                i <= self.limbs@.len() || i <= other.limbs@.len(),
                r == (low_value(self.limbs@, i as nat) <= low_value(other.limbs@, i as nat)),
            decreases
                    (if self.limbs@.len() >= other.limbs@.len() {
                        self.limbs@.len()
                    } else {
                        other.limbs@.len()
                    }) - i,
        {
            let a: u32 = if i < self.limbs.len() {
                self.limbs[i]
            } else {
                0
            };
            let b: u32 = if i < other.limbs.len() {
                other.limbs[i]
            } else {
                0
            };
            if a != b {
                r = a < b;
            }
            proof {
                let p = pow2((32 * i) as nat);
                lemma_low_value_bound(self.limbs@, i as nat);
                lemma_low_value_bound(other.limbs@, i as nat);
                assert(a < b ==> a * p + p <= b * p) by (nonlinear_arith);
                assert(b < a ==> b * p + p <= a * p) by (nonlinear_arith);
                assert(limb(self.limbs@, i as int) == a);
                assert(limb(other.limbs@, i as int) == b);
            }
            i += 1;
        }
        proof {
            lemma_low_value_beyond(self.limbs@, i as nat);
            lemma_low_value_beyond(other.limbs@, i as nat);
        }
        r
    }

    /// A number of bits that `self` fits in.
    pub(crate) proof fn lemma_bits(&self) -> (bits: nat)
        ensures
            self@ < pow2(bits),
            bits <= 32 * usize::MAX,
    {
        lemma_low_value_bound(self.limbs@, self.limbs@.len());
        assert(self.limbs@.len() == self.limbs.len());
        32 * self.limbs@.len()
    }
}

/// Appends the digits of `rest` above those that are held.
fn push_rest(limbs: &mut Vec<u32>, rest: u128)
    ensures
        low_value(final(limbs)@, final(limbs)@.len()) == low_value(old(limbs)@, old(limbs)@.len())
            + rest * pow2(32 * old(limbs)@.len()),
{
    let ghost start = limbs@;
    let mut left: u128 = rest;
    while left > 0
        invariant
            start.len() <= limbs@.len(),
            low_value(limbs@, limbs@.len()) + left * pow2(32 * limbs@.len()) == low_value(
                start,
                start.len(),
            ) + rest * pow2(32 * start.len()),
        decreases left,
    {
        let low: u32 = (left % 0x1_0000_0000) as u32;
        let ghost before = limbs@;
        let ghost old_left = left;
        limbs.push(low);
        left = left / 0x1_0000_0000;
        proof {
            let p = pow2(32 * before.len());
            lemma2_to64();
            lemma_pow2_adds(32, 32 * before.len());
            assert(32 + 32 * before.len() == 32 * limbs@.len());
            lemma_low_value_prefix(before, limbs@, before.len());
            assert(limb(limbs@, before.len() as int) == low);
            assert(low * p + left * (0x1_0000_0000 * p) == old_left * p) by (nonlinear_arith)
                requires
                    old_left == left * 0x1_0000_0000 + low,
            ;
        }
    }
    assert(left * pow2(32 * limbs@.len()) == 0) by (nonlinear_arith)
        requires
            left == 0,
    ;
}

} // verus!
