//! Fixed-width natural numbers, wide enough for the exact comparisons that the
//! sRGB transfer curve needs (see `colour`).

use vstd::prelude::*;

verus! {

/// Number of 64-bit limbs in a `Natural`.
pub const LIMBS: usize = 7;

/// The radix of one limb.
pub open spec fn radix() -> nat {
    0x1_0000_0000_0000_0000
}

/// The weight of limb `i`: `radix()` to the power `i`.
pub open spec fn weight(i: nat) -> nat
    decreases i,
{
    if i == 0 {
        1
    } else {
        radix() * weight((i - 1) as nat)
    }
}

/// The number that little-endian limbs stand for.
pub open spec fn limbs_value(limbs: Seq<u64>) -> nat
    decreases limbs.len(),
{
    if limbs.len() == 0 {
        0
    } else {
        limbs_value(limbs.drop_last()) + (limbs.last() as nat) * weight((limbs.len() - 1) as nat)
    }
}

/// The exclusive upper bound of what a `Natural` holds.
pub open spec fn capacity() -> nat {
    weight(LIMBS as nat)
}

/// A natural number below `capacity()`, stored as `LIMBS` little-endian limbs.
pub struct Natural {
    limbs: Vec<u64>,
}

impl View for Natural {
    type V = nat;

    closed spec fn view(&self) -> nat {
        limbs_value(self.limbs@)
    }
}

impl Natural {
    /// The limbs are exactly `LIMBS` long.
    pub closed spec fn wf(&self) -> bool {
        self.limbs@.len() == LIMBS
    }

    /// The natural number `k`.
    pub fn small(k: u64) -> (n: Natural)
        ensures
            n.wf(),
            n@ == k,
    {
        let mut limbs: Vec<u64> = Vec::new();
        limbs.push(k);
        proof {
            let ghost none = Seq::<u64>::empty();
            lemma_limbs_value_push(none, k);
            assert(limbs_value(none) == 0);
            assert(weight(0) == 1);
            assert(limbs_value(none.push(k)) == limbs_value(none) + k * weight(none.len()));
            assert(none.len() == 0);
            assert(limbs_value(none.push(k)) == k);
            assert(limbs@ =~= none.push(k));
        }
        while limbs.len() < LIMBS
            invariant
                1 <= limbs@.len() <= LIMBS,
                limbs@[0] == k,
                forall|j: int| 1 <= j < limbs@.len() ==> limbs@[j] == 0,
                limbs_value(limbs@) == k,
            decreases LIMBS - limbs@.len(),
        {
            let ghost before = limbs@;
            limbs.push(0);
            proof {
                lemma_limbs_value_push(before, 0);
            }
        }
        Natural { limbs }
    }

    /// The product of `self` and `k`, where it stays below `capacity()`.
    pub fn times(&self, k: u64) -> (product: Natural)
        requires
            self.wf(),
            self@ * k < capacity(),
        ensures
            product.wf(),
            product@ == self@ * k,
    {
        let mut limbs: Vec<u64> = Vec::new();
        let mut carry: u64 = 0;
        let mut i: usize = 0;
        assert(self.limbs@.take(0) =~= Seq::<u64>::empty());
        while i < LIMBS
            invariant
                self.wf(),
                i <= LIMBS,
                limbs@.len() == i,
                carry <= k,
                limbs_value(limbs@) + carry * weight(i as nat) == limbs_value(
                    self.limbs@.take(i as int),
                ) * k,
            decreases LIMBS - i,
        {
            let digit: u64 = self.limbs[i];
            proof {
                assert(digit * k + carry <= 0xffff_ffff_ffff_ffff * k + k) by (nonlinear_arith)
                    requires
                        digit <= 0xffff_ffff_ffff_ffff,
                        carry <= k,
                ;
                assert(0xffff_ffff_ffff_ffff * k + k <= 0x1_0000_0000_0000_0000
                    * 0xffff_ffff_ffff_ffff) by (nonlinear_arith)
                    requires
                        k <= 0xffff_ffff_ffff_ffff,
                ;
            }
            let t: u128 = (digit as u128) * (k as u128) + (carry as u128);
            let low: u64 = (t % 0x1_0000_0000_0000_0000) as u64;
            let high: u128 = t / 0x1_0000_0000_0000_0000;
            proof {
                assert(high <= k) by (nonlinear_arith)
                    requires
                        t <= 0x1_0000_0000_0000_0000 * k,
                        high == t / 0x1_0000_0000_0000_0000,
                ;
                let ghost before = limbs@;
                lemma_limbs_value_push(before, low);
                lemma_limbs_value_take_next(self.limbs@, i as nat);
                lemma_times_step(
                    limbs_value(before) as int,
                    carry as int,
                    limbs_value(self.limbs@.take(i as int)) as int,
                    digit as int,
                    k as int,
                    weight(i as nat) as int,
                    low as int,
                    high as int,
                );
            }
            limbs.push(low);
            carry = high as u64;
            i = i + 1;
        }
        proof {
            assert(self.limbs@.take(LIMBS as int) =~= self.limbs@);
            assert(carry == 0) by (nonlinear_arith)
                requires
                    limbs_value(limbs@) + carry * capacity() < capacity(),
            ;
        }
        Natural { limbs }
    }

    /// Whether `self` is smaller than `other`.
    pub fn less_than(&self, other: &Natural) -> (less: bool)
        requires
            self.wf(),
            other.wf(),
        ensures
            less == (self@ < other@),
    {
        let mut borrow: u64 = 0;
        let mut i: usize = 0;
        assert(self.limbs@.take(0) =~= Seq::<u64>::empty());
        assert(other.limbs@.take(0) =~= Seq::<u64>::empty());
        while i < LIMBS
            invariant
                self.wf(),
                other.wf(),
                i <= LIMBS,
                borrow <= 1,
                0 <= limbs_value(self.limbs@.take(i as int)) - limbs_value(
                    other.limbs@.take(i as int),
                ) + borrow * weight(i as nat) < weight(i as nat),
            decreases LIMBS - i,
        {
            let a: u64 = self.limbs[i];
            let b: u64 = other.limbs[i];
            let next: u64 = if (a as u128) < (b as u128) + (borrow as u128) {
                1
            } else {
                0
            };
            proof {
                lemma_limbs_value_take_next(self.limbs@, i as nat);
                lemma_limbs_value_take_next(other.limbs@, i as nat);
                let w = weight(i as nat) as int;
                let d = limbs_value(self.limbs@.take(i as int)) - limbs_value(
                    other.limbs@.take(i as int),
                ) + borrow * w;
                let x = a - b - borrow + next * radix();
                assert(0 <= x < radix());
                assert(0 <= d + x * w < radix() * w) by (nonlinear_arith)
                    requires
                        0 <= d < w,
                        0 <= x < radix(),
                ;
                let va = limbs_value(self.limbs@.take(i as int)) as int;
                let vb = limbs_value(other.limbs@.take(i as int)) as int;
                assert((va + a * w) - (vb + b * w) + next * (radix() * w) == d + x * w)
                    by (nonlinear_arith)
                    requires
                        d == va - vb + borrow * w,
                        x == a - b - borrow + next * radix(),
                ;
            }
            borrow = next;
            i = i + 1;
        }
        proof {
            assert(self.limbs@.take(LIMBS as int) =~= self.limbs@);
            assert(other.limbs@.take(LIMBS as int) =~= other.limbs@);
        }
        borrow == 1
    }
}

proof fn lemma_limbs_value_push(limbs: Seq<u64>, digit: u64)
    ensures
        limbs_value(limbs.push(digit)) == limbs_value(limbs) + digit * weight(limbs.len()),
{
    assert(limbs.push(digit).drop_last() =~= limbs);
}

proof fn lemma_limbs_value_take_next(limbs: Seq<u64>, i: nat)
    requires
        i < limbs.len(),
    ensures
        limbs_value(limbs.take(i + 1 as int)) == limbs_value(limbs.take(i as int)) + limbs[i as int]
            * weight(i),
        weight(i + 1) == radix() * weight(i),
{
    assert(limbs.take(i + 1 as int).drop_last() =~= limbs.take(i as int));
}

proof fn lemma_times_step(
    value: int,
    carry: int,
    prefix: int,
    digit: int,
    k: int,
    w: int,
    low: int,
    high: int,
)
    requires
        value + carry * w == prefix * k,
        low == (digit * k + carry) % 0x1_0000_0000_0000_0000,
        high == (digit * k + carry) / 0x1_0000_0000_0000_0000,
    ensures
        (value + low * w) + high * (0x1_0000_0000_0000_0000 * w) == (prefix + digit * w) * k,
{
    let t = digit * k + carry;
    assert(t == high * 0x1_0000_0000_0000_0000 + low);
    assert(low * w + high * (0x1_0000_0000_0000_0000 * w) == t * w) by (nonlinear_arith)
        requires
            t == high * 0x1_0000_0000_0000_0000 + low,
    ;
    assert(t * w == digit * k * w + carry * w) by (nonlinear_arith)
        requires
            t == digit * k + carry,
    ;
    assert((prefix + digit * w) * k == prefix * k + digit * k * w) by (nonlinear_arith);
}

} // verus!
