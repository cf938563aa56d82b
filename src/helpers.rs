//! Seeds that carry a deserialization seed through a map or a sequence.
use vstd::prelude::*;
use std::marker::PhantomData;

verus! {

/// Carries the seed of a map's values; keys are decoded as `K`.
pub struct HashMapSeedPassthrough<'de, K, T> {
    seed: T,
    marker: PhantomData<&'de K>,
}

impl<'de, K, T> HashMapSeedPassthrough<'de, K, T> {
    pub closed spec fn spec_seed(&self) -> T {
        self.seed
    }

    pub fn new(seed: T) -> (r: Self)
        ensures
            r.spec_seed() == seed,
    {
        HashMapSeedPassthrough { seed, marker: PhantomData }
    }

    pub fn seed(&self) -> (r: &T)
        ensures
            *r == self.spec_seed(),
    {
        &self.seed
    }
}

/// Carries the seed of a sequence's elements.
pub struct VecSeedPassthrough<'de, T> {
    seed: T,
    marker: PhantomData<&'de ()>,
}

impl<'de, T> VecSeedPassthrough<'de, T> {
    pub closed spec fn spec_seed(&self) -> T {
        self.seed
    }

    pub fn new(seed: T) -> (r: Self)
        ensures
            r.spec_seed() == seed,
    {
        VecSeedPassthrough { seed, marker: PhantomData }
    }

    pub fn seed(&self) -> (r: &T)
        ensures
            *r == self.spec_seed(),
    {
        &self.seed
    }
}

} // verus!
