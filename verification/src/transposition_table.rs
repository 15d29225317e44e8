//! Transposition tables for game values

use vstd::prelude::*;
use std::marker::PhantomData;

verus! {

/// Interface of a transposition table from positions `G` to values `V`
pub trait TranspositionTable<G, V> {
    /// Lookup a position value if exists
    fn lookup_position(&self, position: &G) -> Option<V>;

    /// Save position and its game value
    fn insert_position(&self, position: G, value: V);
}

/// Dummy transposition table that does not store anything
#[derive(Debug, PartialEq, Eq, PartialOrd, Ord, Hash)]
pub struct NoTranspositionTable<G>(PhantomData<G>);

impl<G> Clone for NoTranspositionTable<G> {
    fn clone(&self) -> (r: Self)
        ensures
            r == *self,
    {
        NoTranspositionTable(PhantomData)
    }
}

impl<G> NoTranspositionTable<G> {
    /// The table, which holds nothing
    pub closed spec fn empty_table() -> Self {
        NoTranspositionTable(PhantomData)
    }

    /// Create new dummy transposition table
    pub fn new() -> (r: Self)
        ensures
            r == Self::empty_table(),
    {
        NoTranspositionTable(PhantomData)
    }
}

impl<G> Default for NoTranspositionTable<G> {
    fn default() -> (r: Self)
        ensures
            r == Self::empty_table(),
    {
        Self::new()
    }
}

impl<G, V> TranspositionTable<G, V> for NoTranspositionTable<G> {
    /// Nothing is ever found
    fn lookup_position(&self, _position: &G) -> Option<V>
        returns
            None::<V>,
    {
        None::<V>
    }

    /// Nothing is stored
    fn insert_position(&self, _position: G, _value: V) {
    }
}

} // verus!
