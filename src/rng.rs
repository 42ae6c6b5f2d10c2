use vstd::prelude::*;
use bracket_lib::prelude::RandomNumberGenerator;

verus! {

#[verifier::external_type_specification]
#[verifier::external_body]
pub struct ExRandomNumberGenerator(RandomNumberGenerator);

/// Relies on bracket-lib's `RandomNumberGenerator::range`: a draw from `lo` (inclusive)
/// to `hi` (exclusive). It panics on an empty range, which `requires` rules out.
#[verifier::external_body]
pub(crate) fn roll(rng: &mut RandomNumberGenerator, lo: i32, hi: i32) -> (r: i32)
    requires
        lo < hi,
    ensures
        lo <= r < hi,
{
    rng.range(lo, hi)
}

/// Relies on bracket-lib's `RandomNumberGenerator::random_slice_index`: `None` for an empty
/// slice, else an index into it. Its length is converted to `i32`, so `requires` keeps it
/// below `i32::MAX`.
#[verifier::external_body]
pub(crate) fn slice_index(rng: &mut RandomNumberGenerator, v: &Vec<usize>) -> (r: Option<usize>)
    requires
        v@.len() < 0x7fff_ffff,
    ensures
        r is None <==> v@.len() == 0,
        r is Some ==> r->Some_0 < v@.len(),
{
    rng.random_slice_index(v.as_slice())
}

} // verus!
