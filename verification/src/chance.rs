//! The random source: probabilities as exact ratios, and the draws the
//! automaton makes from the thread-local generator of the `rand` crate.
//!
//! That generator is seeded from the operating system when a thread first
//! uses it, and `rand` panics if the operating system cannot provide the
//! seed. Nothing here can rule that out.

use rand::seq::SliceRandom;
use rand::Rng;
use vstd::prelude::*;

verus! {

/// Draws an integer from `low ..= high`.
///
/// Calls `rand::Rng::random_range` on the thread-local generator with that
/// inclusive range. That function panics on an empty range, which is
/// excluded. Assumed: the value lies in the range. Nothing is assumed about
/// which value of the range comes back.
#[verifier::external_body]
pub(crate) fn random_in_range(low: i8, high: i8) -> (r: i8)
    requires
        low <= high,
    ensures
        low <= r <= high,
{
    rand::rng().random_range(low..=high)
}

/// One Bernoulli trial with success probability `numerator / denominator`.
///
/// Calls `rand::Rng::random_ratio` on the thread-local generator. That
/// function panics when the denominator is zero or the numerator exceeds it,
/// so both are excluded. Assumed, as its documentation guarantees: a ratio of
/// zero never succeeds and a ratio of one always succeeds. Nothing is assumed
/// about any other ratio.
#[verifier::external_body]
pub(crate) fn random_ratio(numerator: u32, denominator: u32) -> (hit: bool)
    requires
        0 < denominator,
        numerator <= denominator,
    ensures
        numerator == 0 ==> !hit,
        numerator == denominator ==> hit,
{
    rand::rng().random_ratio(numerator, denominator)
}

/// Reorders `ids` at random.
///
/// Calls `rand::seq::SliceRandom::shuffle` on the thread-local generator.
/// Assumed: the shuffle only swaps elements, so the vector afterwards holds
/// the same values, each as often as before. Nothing is assumed about their
/// order.
#[verifier::external_body]
pub(crate) fn shuffle_ids(ids: &mut Vec<u64>)
    ensures
        final(ids)@.to_multiset() == old(ids)@.to_multiset(),
{
    ids.shuffle(&mut rand::rng());
}

/// A probability, held exactly as a ratio of two integers.
#[derive(Clone, Copy, Debug, PartialEq, Eq)]
pub struct Rate {
    numerator: u32,
    denominator: u32,
}

/// Whether `numerator / denominator` is a probability: a ratio in `[0, 1]`.
pub open spec fn is_probability(numerator: nat, denominator: nat) -> bool {
    0 < denominator && numerator <= denominator
}

impl Rate {
    /// The ratio's numerator.
    pub closed spec fn num(self) -> nat {
        self.numerator as nat
    }

    /// The ratio's denominator.
    pub closed spec fn den(self) -> nat {
        self.denominator as nat
    }

    #[verifier::type_invariant]
    pub open spec fn valid(self) -> bool {
        &&& is_probability(self.num(), self.den())
        &&& self.den() <= u32::MAX
    }

    /// A trial at this rate can never succeed.
    pub open spec fn is_never(self) -> bool {
        self.num() == 0
    }

    /// A trial at this rate cannot fail.
    pub open spec fn is_always(self) -> bool {
        self.num() == self.den()
    }

    /// The rate `numerator / denominator`, if that is a probability.
    pub fn new(numerator: u32, denominator: u32) -> (r: Option<Rate>)
        ensures
            r.is_some() <==> is_probability(numerator as nat, denominator as nat),
            r matches Some(rate) ==> rate.num() == numerator && rate.den() == denominator
                && rate.valid(),
    {
        if denominator == 0 || numerator > denominator {
            None
        } else {
            Some(Rate { numerator, denominator })
        }
    }

    /// The ratio's numerator.
    pub fn numerator(&self) -> (n: u32)
        ensures
            n == self.num(),
            n <= self.den(),
    {
        proof {
            use_type_invariant(self);
        }
        self.numerator
    }

    /// The ratio's denominator.
    pub fn denominator(&self) -> (d: u32)
        ensures
            d == self.den(),
            0 < d,
    {
        proof {
            use_type_invariant(self);
        }
        self.denominator
    }

    /// One Bernoulli trial at this rate.
    pub fn sample(&self) -> (hit: bool)
        ensures
            self.is_never() ==> !hit,
            self.is_always() ==> hit,
    {
        proof {
            use_type_invariant(self);
        }
        random_ratio(self.numerator, self.denominator)
    }

    /// `floor(count * rate / 2)`: how many pairs cover the share `rate` of
    /// `count` items.
    pub fn pairs_among(&self, count: usize) -> (pairs: usize)
        ensures
            pairs == pair_quota(count as nat, self.num(), self.den()),
            2 * pairs <= count,
    {
        proof {
            use_type_invariant(self);
        }
        assert(count * self.numerator <= 0xffff_ffff_ffff_ffff * 0xffff_ffff) by (nonlinear_arith)
            requires
                count <= 0xffff_ffff_ffff_ffff,
                self.numerator <= 0xffff_ffff,
        ;
        let scaled: u128 = (count as u128) * (self.numerator as u128);
        let divisor: u128 = 2u128 * (self.denominator as u128);
        let quota: u128 = scaled / divisor;
        proof {
            lemma_pair_quota_bound(count as nat, self.num(), self.den());
        }
        quota as usize
    }
}

/// `floor(count * numerator / (2 * denominator))`.
pub open spec fn pair_quota(count: nat, numerator: nat, denominator: nat) -> nat {
    (count * numerator) / (2 * denominator)
}

/// A share of at most one of `count` items makes at most `count / 2` pairs.
pub proof fn lemma_pair_quota_bound(count: nat, numerator: nat, denominator: nat)
    requires
        is_probability(numerator, denominator),
    ensures
        2 * pair_quota(count, numerator, denominator) <= count,
{
    let d = 2 * denominator;
    let q = pair_quota(count, numerator, denominator);
    assert(count * numerator <= count * denominator) by (nonlinear_arith)
        requires
            numerator <= denominator,
    ;
    assert(q * d <= count * numerator) by (nonlinear_arith)
        requires
            q == (count * numerator) / d,
            d > 0,
    ;
    assert(2 * q <= count) by (nonlinear_arith)
        requires
            q * (2 * denominator) <= count * denominator,
            denominator > 0,
    ;
}

} // verus!
