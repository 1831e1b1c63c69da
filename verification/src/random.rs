//! The random generator of the crate `fastrand`, through which the new tiles
//! are drawn. A generator of that crate is its state, a `u64`: it is made from
//! one with `Rng::with_seed` and gives it back with `Rng::get_seed`. The game
//! keeps the state, and a generator is made from it for each draw. What stands
//! here is believed, not proved.

use vstd::prelude::*;

verus! {

/// The state of `fastrand::Rng::new`, a generator that is seeded from the
/// generator of the running thread, as `Rng::get_seed` gives it. Nothing is
/// claimed of it.
#[verifier::external_body]
pub(crate) fn fresh_state() -> (state: u64) {
    fastrand::Rng::new().get_seed()
}

/// `fastrand::Rng::usize` on the range `0..bound`, called on the generator
/// that `Rng::with_seed` makes from `state`; the state that `Rng::get_seed`
/// gives after the call is written back. The call panics on an empty range
/// only, which `requires` leaves out; on any other it adds a value below the
/// range's length to its start, so the result is below `bound`. Which value it
/// is, and what the state is afterwards, is not claimed.
#[verifier::external_body]
pub(crate) fn draw_below(state: &mut u64, bound: usize) -> (drawn: usize)
    requires
        bound > 0,
    ensures
        drawn < bound,
{
    let mut rng = fastrand::Rng::with_seed(*state);
    let drawn = rng.usize(0..bound);
    *state = rng.get_seed();
    drawn
}

} // verus!
