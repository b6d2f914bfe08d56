//! Fixed-capacity collections and a single-threaded channel, with their
//! behaviour stated as contracts over mathematical models.
pub mod channel;
pub mod collections;

use vstd::prelude::*;

verus! {

} // verus!
