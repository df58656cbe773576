//! Names for the coordinate axes, as rotation constructors and the
//! bounding-box splitter speak of them.

use vstd::prelude::*;

verus! {

/// A coordinate axis. Rotations are built about one of these; a bounding box
/// splits along the axis of its largest extent, ties favoring `X`, then `Y`.
#[derive(Clone, Copy, Debug, PartialEq, Eq, Structural)]
pub enum Axis {
    X,
    Y,
    Z,
}

} // verus!
