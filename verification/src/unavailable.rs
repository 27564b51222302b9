//! A marker for configuration items that the running build cannot
//! honour; deserializing one is the caller's error.

use vstd::prelude::*;

verus! {

/// A configuration item that is not available in this build.
#[derive(Debug, Clone, Copy, PartialEq, Eq, Structural)]
pub struct Unavailable;

} // verus!
