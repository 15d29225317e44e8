//! Errors of game form construction

use vstd::prelude::*;
use std::convert::Infallible;
use crate::result::{absurd_infallible, Void};

verus! {

/// Errors from which a game form can be recovered
pub trait ConstructionError<G> {
    /// The form to use in place of the one that could not be built
    fn recover(self) -> G;
}

impl<G> ConstructionError<G> for Infallible {
    fn recover(self) -> G {
        absurd_infallible(self)
    }
}

/// Error of random form generation: building a form, or an integer, failed
#[derive(Debug, Clone, Copy, PartialEq, Eq, PartialOrd, Ord, Hash)]
pub enum ArbitraryError<Construction, Integer> {
    /// Building a form failed
    Construction(Construction),
    /// Building an integer failed
    Integer(Integer),
}

impl<G, Construction, Integer> ConstructionError<G> for ArbitraryError<Construction, Integer> where
    Construction: ConstructionError<G>,
    Integer: ConstructionError<G>,
 {
    /// The form that the underlying error recovers
    fn recover(self) -> (r: G)
        ensures
            match self {
                ArbitraryError::Construction(err) => call_ensures(Construction::recover, (err,), r),
                ArbitraryError::Integer(err) => call_ensures(Integer::recover, (err,), r),
            },
    {
        match self {
            ArbitraryError::Construction(err) => err.recover(),
            ArbitraryError::Integer(err) => err.recover(),
        }
    }
}

impl<Construction, Integer> Void for ArbitraryError<Construction, Integer> where
    Construction: Void,
    Integer: Void,
 {
    fn absurd<T>(self) -> T {
        match self {
            ArbitraryError::Construction(err) => err.absurd(),
            ArbitraryError::Integer(err) => err.absurd(),
        }
    }
}

} // verus!
