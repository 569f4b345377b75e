//! Names of the coordinate axes.
use vstd::prelude::*;

verus! {

/// A coordinate axis.
#[derive(Clone, Copy, PartialEq, Eq, Structural, Debug)]
pub enum Axis {
    X,
    Y,
    Z,
    W,
}

} // verus!
