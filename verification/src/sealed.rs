//! The trait that keeps [`Row`](crate::row::Row) to the rows of this crate.

use vstd::prelude::*;

verus! {

/// Implemented by the rows of this crate, and by nothing else.
pub trait Sealed {

}

} // verus!
