use vstd::prelude::*;

verus! {

/// A row of the cache of distances computed on encrypted coordinates: the
/// serialised radicand and the serialised distance.
#[derive(Debug, PartialEq, Eq)]
pub struct CiphertextDistances {
    pub id: Option<Vec<u8>>,
    pub distance: Option<Vec<u8>>,
}

/// A row of the cache of distances computed on plain coordinates: the
/// serialised radicand and the serialised distance.
#[derive(Debug, PartialEq, Eq)]
pub struct PlaintextDistances {
    pub id: Option<Vec<u8>>,
    pub distance: Option<Vec<u8>>,
}

} // verus!
