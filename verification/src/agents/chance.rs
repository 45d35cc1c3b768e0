//! The one place where the agents turn to chance.

use rand::rngs::SmallRng;
use rand::seq::IteratorRandom;
use rand::SeedableRng;
use vstd::prelude::*;

verus! {

/// `IteratorRandom::choose` on the range `0..n` with a `SmallRng` that
/// `SeedableRng::from_entropy` has seeded: one of the numbers below `n`, whichever,
/// and `None` only where there is none. The seeding stops the program where the
/// system has no entropy to give.
#[verifier::external_body]
pub(crate) fn draw_index(n: usize) -> (draw: Option<usize>)
    ensures
        draw is Some <==> n > 0,
        draw matches Some(i) ==> i < n,
{
    let mut rng = SmallRng::from_entropy();
    (0..n).choose(&mut rng)
}

} // verus!
