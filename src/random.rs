use vstd::prelude::*;

verus! {

#[verifier::external_type_specification]
#[verifier::external_body]
pub struct ExRandomNumberGenerator(rltk::RandomNumberGenerator);

/// Relies on rltk's `RandomNumberGenerator::roll_dice`: one die of `sides`
/// faces gives a value from 1 to `sides`.
#[verifier::external_body]
pub(crate) fn roll_die(rng: &mut rltk::RandomNumberGenerator, sides: i32) -> (r: i32)
    requires
        1 <= sides < i32::MAX,
    ensures
        1 <= r <= sides,
{
    rng.roll_dice(1, sides)
}

} // verus!
