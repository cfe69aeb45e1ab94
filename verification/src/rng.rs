//! The pseudo-random generator that drives playouts. Nothing is assumed of
//! the numbers it yields: whatever is built on them is verified for every
//! value they may take.

use rand::Rng;
use rand::SeedableRng;
use rand::XorShiftRng;
use vstd::prelude::*;

verus! {

#[verifier::external_type_specification]
#[verifier::external_body]
pub struct ExXorShiftRng(XorShiftRng);

/// Calls `rand::Rng::gen::<usize>` on the generator. The result is any
/// machine word.
#[verifier::external_body]
pub(crate) fn next_index(rng: &mut XorShiftRng) -> (r: usize) {
    rng.gen::<usize>()
}

/// Calls `rand::Rng::gen::<bool>` on the generator. The result is either
/// truth value.
#[verifier::external_body]
pub(crate) fn next_bool(rng: &mut XorShiftRng) -> (b: bool) {
    rng.gen::<bool>()
}

/// Calls `rand::Rng::shuffle` on the elements of `values`. The crate swaps
/// elements in place, so afterwards the vector holds the same elements as
/// before, in some order.
#[verifier::external_body]
pub(crate) fn shuffle<T>(rng: &mut XorShiftRng, values: &mut Vec<T>)
    ensures
        final(values)@.to_multiset() == old(values)@.to_multiset(),
{
    rng.shuffle(values.as_mut_slice());
}

/// The generator that `rand::SeedableRng::from_seed` makes of four words.
pub uninterp spec fn seeded(seed: Seq<u32>) -> XorShiftRng;

/// Four words of which one at least is not zero.
pub open spec fn is_seed(seed: Seq<u32>) -> bool {
    seed.len() == 4 && !(seed[0] == 0 && seed[1] == 0 && seed[2] == 0 && seed[3] == 0)
}

/// Calls `rand::SeedableRng::from_seed` for `XorShiftRng`, which refuses a
/// seed of four zeros and makes of any other seed the generator whose
/// state the four words are.
#[verifier::external_body]
pub(crate) fn rng_from_seed(seed: [u32; 4]) -> (rng: XorShiftRng)
    requires
        !(seed@[0] == 0 && seed@[1] == 0 && seed@[2] == 0 && seed@[3] == 0),
    ensures
        rng == seeded(seed@),
{
    SeedableRng::from_seed(seed)
}

/// Calls `rand::random::<[u32; 4]>`, which draws from the thread-local
/// generator. The result is any four words.
#[verifier::external_body]
pub(crate) fn entropy_seed() -> (seed: [u32; 4]) {
    rand::random::<[u32; 4]>()
}

/// A generator seeded from the thread-local source of randomness. Should
/// the source yield four zeros, the one seed that the generator cannot
/// start from, the first of them is replaced by one.
pub fn fresh_rng() -> (rng: XorShiftRng)
    ensures
        exists|seed: Seq<u32>| is_seed(seed) && rng == #[trigger] seeded(seed),
{
    let mut seed: [u32; 4] = entropy_seed();
    if seed[0] == 0 && seed[1] == 0 && seed[2] == 0 && seed[3] == 0 {
        seed[0] = 1;
    }
    proof {
        assert(is_seed(seed@));
    }
    rng_from_seed(seed)
}

/// A generator with the given seed, or `None` for the one seed that the
/// generator cannot start from: four zeros.
pub fn seeded_rng(seed: [u32; 4]) -> (rng: Option<XorShiftRng>)
    ensures
        rng is Some <==> !(seed@[0] == 0 && seed@[1] == 0 && seed@[2] == 0 && seed@[3] == 0),
        rng matches Some(r) ==> r == seeded(seed@),
{
    if seed[0] == 0 && seed[1] == 0 && seed[2] == 0 && seed[3] == 0 {
        None
    } else {
        Some(rng_from_seed(seed))
    }
}

} // verus!
