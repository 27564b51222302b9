//! Markers for the two request rejections the handler maps to
//! statuses.

use vstd::prelude::*;

verus! {

/// No mirror of the chosen list was available.
#[derive(Debug, Clone, Copy, PartialEq, Eq, Structural)]
pub struct MirrorsUnavailable;

/// The request URI carries no usable path.
#[derive(Debug, Clone, Copy, PartialEq, Eq, Structural)]
pub struct BrokenPath;

} // verus!
