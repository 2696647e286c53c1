//! Name resolution and dependency ordering for an interface-description
//! language front end, with the length-prefixed named blob that its binary
//! output uses.
use vstd::prelude::*;

pub mod custom;
pub mod names;
pub mod toposort;

verus! {

} // verus!
