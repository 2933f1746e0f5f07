use vstd::prelude::*;

verus! {

/// rand's standard seedable generator. The library holds it opaquely and
/// never claims anything about the values it yields beyond their range,
/// so every contract downstream holds whatever the generator returns.
#[verifier::external_type_specification]
#[verifier::external_body]
pub struct ExStdRng(rand::rngs::StdRng);

/// Relies on rand::Rng::random_range over 0..n: the sampled value lies in
/// the range. The call panics only on an empty range, which the
/// precondition rules out.
#[verifier::external_body]
pub(crate) fn draw_index(rng: &mut rand::rngs::StdRng, n: usize) -> (r: usize)
    requires
        n >= 1,
    ensures
        r < n,
{
    rand::Rng::random_range(rng, 0..n)
}

/// Relies on rand::Rng::random_range over -1..=1: the sampled level is
/// one of -1, 0, 1 (the discrete initial-state distribution).
#[verifier::external_body]
pub(crate) fn draw_level(rng: &mut rand::rngs::StdRng) -> (r: i64)
    ensures
        -1 <= r <= 1,
{
    rand::Rng::random_range(rng, -1i64..=1i64)
}

} // verus!
