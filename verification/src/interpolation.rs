//! How an animation blends between two keyframes.
use vstd::prelude::*;

verus! {

/// The easing between two keyframes, stored as a byte in files: linear 0,
/// quadratic 1, cubic 2, step (no blending: the earlier keyframe holds) 3.
#[derive(Clone, Copy, PartialEq, Eq, Structural, Debug)]
pub enum Interpolation {
    Linear,
    Quadratic,
    Cubic,
    Step,
}

/// The easing that a stored byte names; unknown bytes mean linear.
pub open spec fn interpolation_of_byte(value: u8) -> Interpolation {
    if value == 1 {
        Interpolation::Quadratic
    } else if value == 2 {
        Interpolation::Cubic
    } else if value == 3 {
        Interpolation::Step
    } else {
        Interpolation::Linear
    }
}

impl From<u8> for Interpolation {
    fn from(value: u8) -> (r: Interpolation) {
        match value {
            1 => Interpolation::Quadratic,
            2 => Interpolation::Cubic,
            3 => Interpolation::Step,
            _ => Interpolation::Linear,
        }
    }
}

impl vstd::std_specs::convert::FromSpecImpl<u8> for Interpolation {
    open spec fn obeys_from_spec() -> bool {
        true
    }

    open spec fn from_spec(v: u8) -> Interpolation {
        interpolation_of_byte(v)
    }
}

} // verus!
