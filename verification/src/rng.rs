//! The one source of randomness the encoder uses.
//!
//! Impulse positions are drawn at random each tick; no property of the
//! drawn values is assumed, so everything proved of the encoder holds for
//! every value the generator can return.

use vstd::prelude::*;

verus! {

/// Relies on rand::random: a value from the thread-local generator.
/// Nothing is promised of the result; callers must hold for every value.
pub assume_specification<T>[ rand::random::<T> ]() -> (r: T)
    where
        rand::distributions::Standard: rand::distributions::Distribution<T>,
;

} // verus!
