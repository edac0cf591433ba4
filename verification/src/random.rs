//! The random stream that generation draws from.

use vstd::prelude::*;
use rand::Rng;

verus! {

/// `rand_chacha::ChaCha8Rng`, a random stream that is set up from a seed.
/// Nothing is claimed of what it holds.
#[verifier::external_type_specification]
#[verifier::external_body]
pub struct ExChaCha8Rng(rand_chacha::ChaCha8Rng);

/// A seedable random stream. Every draw advances the stream, so one stream
/// threaded through a computation makes it repeatable from the seed.
pub struct Random(pub rand_chacha::ChaCha8Rng);

/// Calls `rand::Rng::gen_range` on the half-open range `low..high`. The
/// range must not be empty; the value drawn lies in it.
#[verifier::external_body]
pub(crate) fn gen_range(rand: &mut Random, low: usize, high: usize) -> (value: usize)
    requires
        low < high,
    ensures
        low <= value < high,
{
    rand.0.gen_range(low..high)
}

/// Calls `rand::Rng::gen_ratio`, which draws `true` with the chance
/// `numerator` in `denominator`. The denominator must not be zero and the
/// numerator not above it. A zero numerator always draws `false`, a numerator
/// equal to the denominator always `true`.
#[verifier::external_body]
pub(crate) fn gen_ratio(rand: &mut Random, numerator: u32, denominator: u32) -> (hit: bool)
    requires
        denominator > 0,
        numerator <= denominator,
    ensures
        numerator == 0 ==> !hit,
        numerator == denominator ==> hit,
{
    rand.0.gen_ratio(numerator, denominator)
}

/// A chance given as a ratio of two integers, between zero and one.
#[derive(Debug, Clone, Copy)]
pub struct Probability {
    numerator: u32,
    denominator: u32,
}

impl Probability {
    #[verifier::type_invariant]
    spec fn well_formed(self) -> bool {
        self.denominator > 0 && self.numerator <= self.denominator
    }

    pub closed spec fn spec_numerator(self) -> int {
        self.numerator as int
    }

    pub closed spec fn spec_denominator(self) -> int {
        self.denominator as int
    }

    /// The chance that is never taken.
    pub open spec fn is_never(self) -> bool {
        self.spec_numerator() == 0
    }

    /// The chance that is always taken.
    pub open spec fn is_always(self) -> bool {
        self.spec_numerator() == self.spec_denominator()
    }

    /// The chance `numerator` in `denominator`, or `None` where the two do
    /// not name a chance between zero and one.
    pub fn new(numerator: u32, denominator: u32) -> (probability: Option<Probability>)
        ensures
            probability is Some <==> denominator > 0 && numerator <= denominator,
            probability matches Some(p) ==> p.spec_numerator() == numerator
                && p.spec_denominator() == denominator,
    {
        if denominator > 0 && numerator <= denominator {
            Some(Probability { numerator, denominator })
        } else {
            None
        }
    }

    /// The chance `numerator` in `denominator`.
    pub fn ratio(numerator: u32, denominator: u32) -> (probability: Probability)
        requires
            denominator > 0,
            numerator <= denominator,
        ensures
            probability.spec_numerator() == numerator,
            probability.spec_denominator() == denominator,
    {
        Probability { numerator, denominator }
    }

    pub fn numerator(&self) -> (n: u32)
        ensures
            n == self.spec_numerator(),
            n <= self.spec_denominator(),
    {
        proof {
            use_type_invariant(self);
        }
        self.numerator
    }

    pub fn denominator(&self) -> (d: u32)
        ensures
            d == self.spec_denominator(),
            d > 0,
    {
        proof {
            use_type_invariant(self);
        }
        self.denominator
    }

    /// Draws with this chance.
    pub fn sample(&self, rand: &mut Random) -> (hit: bool)
        ensures
            self.is_never() ==> !hit,
            self.is_always() ==> hit,
    {
        proof {
            use_type_invariant(self);
        }
        gen_ratio(rand, self.numerator, self.denominator)
    }
}

impl Random {
    /// Draws one of the options, each with the same chance.
    pub fn choose_from<T: Clone>(&mut self, options: &Vec<T>) -> (chosen: T)
        requires
            options.len() > 0,
        ensures
            exists|i: int| 0 <= i < options.len() && cloned(#[trigger] options[i], chosen),
    {
        let index = gen_range(self, 0, options.len());
        options[index].clone()
    }
}

} // verus!
