//! The random source, behind trusted wrappers.
//!
//! All randomness the engine uses is drawn from a caller-supplied
//! `rand::rngs::ThreadRng`, threaded explicitly through every operation that
//! needs it.  The wrappers state only what holds of every possible draw.

use vstd::prelude::*;

use crate::model::Dir;
use rand::Rng;
use rand::seq::SliceRandom;

verus! {

#[verifier::external_type_specification]
#[verifier::external_body]
pub struct ExThreadRng(rand::rngs::ThreadRng);

/// Relies on rand::Rng::gen_range: a draw from `0..n` lies below `n`, and the
/// call panics only on an empty range.
#[verifier::external_body]
pub(crate) fn rand_below(rng: &mut rand::rngs::ThreadRng, n: usize) -> (r: usize)
    requires
        n >= 1,
    ensures
        r < n,
{
    rng.gen_range(0..n)
}

/// Relies on rand::seq::SliceRandom::choose_multiple: asked for as many
/// elements as the slice holds, it yields every element exactly once, in a
/// random order.
#[verifier::external_body]
pub(crate) fn choose_order(rng: &mut rand::rngs::ThreadRng, dirs: &Vec<Dir>) -> (r: Vec<Dir>)
    ensures
        r@.len() == dirs@.len(),
        forall|i: int| 0 <= i < dirs@.len() ==> r@.contains(dirs@[i]),
{
    dirs.choose_multiple(rng, dirs.len()).cloned().collect()
}

} // verus!
