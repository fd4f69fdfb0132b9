use vstd::prelude::*;

verus! {

/// An exact non-negative rational number `num / den`, used for similarity
/// scores and thresholds. Scores are kept unreduced: a score of `2 * m`
/// matched bytes over a combined length of `den` bytes is stored exactly as
/// produced, so `6 / 7` stays `6 / 7`.
#[derive(Clone, Copy, Debug, PartialEq, Eq, Structural)]
pub struct Ratio {
    pub num: u64,
    pub den: u64,
}

impl Ratio {
    /// A well-formed ratio has a non-zero denominator.
    pub open spec fn wf(self) -> bool {
        self.den >= 1
    }

    /// Mathematical `self >= other`, by cross multiplication.
    pub open spec fn spec_ge(self, other: Ratio) -> bool {
        self.num * other.den >= other.num * self.den
    }

    /// Mathematical `self > other`, by cross multiplication.
    pub open spec fn spec_gt(self, other: Ratio) -> bool {
        self.num * other.den > other.num * self.den
    }

    /// Exact comparison `self >= other`; never overflows because both cross
    /// products fit in 128 bits.
    pub fn ge(&self, other: &Ratio) -> (r: bool)
        ensures
            r == self.spec_ge(*other),
    {
        proof {
            lemma_u64_cross_products_fit(self.num, other.den, other.num, self.den);
        }
        (self.num as u128) * (other.den as u128) >= (other.num as u128) * (self.den as u128)
    }

    /// Exact comparison `self > other`.
    pub fn gt(&self, other: &Ratio) -> (r: bool)
        ensures
            r == self.spec_gt(*other),
    {
        proof {
            lemma_u64_cross_products_fit(self.num, other.den, other.num, self.den);
        }
        (self.num as u128) * (other.den as u128) > (other.num as u128) * (self.den as u128)
    }
}

/// The product of two 64-bit values fits in 128 bits.
proof fn lemma_u64_cross_products_fit(a: u64, b: u64, c: u64, d: u64)
    ensures
        (a as u128) * (b as u128) <= u128::MAX,
        (c as u128) * (d as u128) <= u128::MAX,
{
    assert((a as u128) * (b as u128) <= u128::MAX && (c as u128) * (d as u128) <= u128::MAX)
        by (nonlinear_arith)
        requires
            a <= u64::MAX,
            b <= u64::MAX,
            c <= u64::MAX,
            d <= u64::MAX,
    ;
}

} // verus!
