use vstd::prelude::*;

verus! {

/// A random source that can fork an independent stream of its own, one per
/// image row, so that rows render independently and reproducibly.
pub trait SeedingRandomness: Sized {
    fn seed_new(&mut self) -> Self;
}

} // verus!
