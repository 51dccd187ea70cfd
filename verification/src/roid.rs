//! The source of asteroids.

use vstd::prelude::*;

verus! {

/// Makes asteroids. It holds no state.
pub struct Generator;

impl Generator {
    pub fn new() -> (generator: Generator)
        ensures
            generator == Generator,
    {
        Generator
    }
}

} // verus!
