//! Behaviours that can be attached to scene objects.
use vstd::prelude::*;

verus! {

/// A marker type for the behaviour that spins a scene object; it holds no
/// state. The spinning itself is float work on the object's rotation and is
/// not part of this library.
pub struct SpinBehavior;

} // verus!
