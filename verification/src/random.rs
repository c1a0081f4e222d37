//! The source of the engine's random choices.

use rand::rngs::StdRng;
use rand::Rng;
use rand::SeedableRng;
use vstd::prelude::*;

verus! {

/// `rand::rngs::StdRng`, the standard seedable generator, of which nothing
/// is known here but that it exists.
#[verifier::external_type_specification]
#[verifier::external_body]
pub struct ExStdRng(StdRng);

/// `rand::SeedableRng::seed_from_u64` for `StdRng`: a generator whose stream
/// is fixed by `seed`. Nothing is claimed of the stream.
#[verifier::external_body]
fn seeded_generator(seed: u64) -> StdRng {
    StdRng::seed_from_u64(seed)
}

/// `rand::Rng::gen_range` on `0..bound`: some index below `bound`. The
/// range must not be empty.
#[verifier::external_body]
fn draw_below(generator: &mut StdRng, bound: usize) -> (index: usize)
    requires
        bound > 0,
    ensures
        index < bound,
{
    generator.gen_range(0..bound)
}

/// A seedable generator of indices that remembers, for the proofs only,
/// every index it has handed out.
pub struct RandomSource {
    generator: StdRng,
    drawn: Ghost<Seq<nat>>,
}

impl View for RandomSource {
    type V = Seq<nat>;

    /// The indices drawn so far, oldest first.
    closed spec fn view(&self) -> Seq<nat> {
        self.drawn@
    }
}

impl RandomSource {
    /// A source whose stream of draws is fixed by `seed`.
    pub fn from_seed(seed: u64) -> (source: RandomSource)
        ensures
            source@ == Seq::<nat>::empty(),
    {
        RandomSource { generator: seeded_generator(seed), drawn: Ghost(Seq::empty()) }
    }

    /// Draws an index below `bound`.
    pub fn next_below(&mut self, bound: usize) -> (index: usize)
        requires
            bound > 0,
        ensures
            index < bound,
            final(self)@ == old(self)@.push(index as nat),
    {
        let index = draw_below(&mut self.generator, bound);
        proof {
            self.drawn@ = self.drawn@.push(index as nat);
        }
        index
    }
}

} // verus!
