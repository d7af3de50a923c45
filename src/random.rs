use vstd::prelude::*;

verus! {

/// rand's xorshift generator: every random choice of the library draws on it.
#[verifier::external_type_specification]
#[verifier::external_body]
pub struct ExXorShiftRng(rand::XorShiftRng);

/// Relies on rand's `Rng::gen_range(0, n)`: a value drawn uniformly from
/// `[0, n)`; rand panics when the range is empty.
#[verifier::external_body]
pub(crate) fn draw_below(rng: &mut rand::XorShiftRng, n: u64) -> (r: u64)
    requires
        n > 0,
    ensures
        r < n,
{
    rand::Rng::gen_range(rng, 0, n)
}

/// Relies on rand's `Rng::shuffle`: it only swaps elements, so the result
/// holds the same elements as before, in some order.
#[verifier::external_body]
pub(crate) fn shuffle(rng: &mut rand::XorShiftRng, v: &mut Vec<usize>)
    ensures
        final(v)@.to_multiset() == old(v)@.to_multiset(),
{
    rand::Rng::shuffle(rng, v.as_mut_slice())
}

} // verus!
