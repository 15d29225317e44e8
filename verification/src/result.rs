//! Utilities for working with the `Result` type

use vstd::prelude::*;
use std::convert::Infallible;

verus! {

/// Types without values
pub trait Void {
    /// A value of any type from a value that cannot exist
    fn absurd<T>(self) -> T;
}

/// An `Infallible` has no values, so this is never called; nothing is
/// claimed of it.
#[verifier::external_body]
pub(crate) fn absurd_infallible<T>(value: Infallible) -> T {
    match value {}
}

impl Void for Infallible {
    fn absurd<T>(self) -> T {
        absurd_infallible(self)
    }
}

/// Results whose error type has no values
pub trait UnwrapInfallible {
    /// The success type
    type R;

    /// The success value
    fn unwrap_infallible(self) -> Self::R;
}

impl<T, E: Void> UnwrapInfallible for Result<T, E> {
    type R = T;

    fn unwrap_infallible(self) -> (r: T)
        ensures
            self matches Ok(v) ==> r == v,
    {
        match self {
            Ok(res) => res,
            Err(err) => err.absurd(),
        }
    }
}

} // verus!
