//! The band shapes of the passive equaliser.
use vstd::prelude::*;

verus! {

#[derive(Clone, Copy, Debug, PartialEq, Eq, Structural)]
pub enum FilterType {
    ShelfLow,
    Peak,
    ShelfHigh,
}

} // verus!
