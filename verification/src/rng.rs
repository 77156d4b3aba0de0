//! The engine's one source of randomness.

use vstd::prelude::*;

use rand::Rng;

use crate::grid::TileColor;

verus! {

/// Relies on `rand::Rng::gen_range` over `0..n`: it returns a value drawn
/// uniformly from that range, hence strictly below `n`, and panics only on
/// an empty range, which the precondition rules out.
#[verifier::external_body]
pub(crate) fn random_index(n: usize) -> (r: usize)
    requires
        n >= 1,
    ensures
        r < n,
{
    rand::thread_rng().gen_range(0..n)
}

/// Draws one of the offered colors uniformly at random.
pub(crate) fn pick_color(options: &Vec<TileColor>) -> (c: TileColor)
    requires
        options@.len() >= 1,
    ensures
        options@.contains(c),
{
    let i = random_index(options.len());
    let c = options[i];
    proof {
        assert(options@[i as int] == c);
    }
    c
}

} // verus!
