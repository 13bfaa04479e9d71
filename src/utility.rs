use rand::Rng;
use vstd::prelude::*;

verus! {

/// Relies on `rand::Rng::gen_range` over an inclusive `i32` range, drawn from the
/// thread-local generator: the value lies in `[min, max]`. The call panics on an
/// empty range, which `requires` leaves out.
#[verifier::external_body]
fn draw_inclusive(min: i32, max: i32) -> (r: i32)
    requires
        min <= max,
    ensures
        min <= r <= max,
{
    rand::thread_rng().gen_range(min..=max)
}

/// A uniformly drawn integer in `[min, max]`, both ends included.
pub fn random_int_range(min: i32, max: i32) -> (r: i32)
    requires
        min <= max,
    ensures
        min <= r <= max,
{
    draw_inclusive(min, max)
}

} // verus!
