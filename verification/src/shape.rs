use vstd::prelude::*;

verus! {

/// The axis along which a connecting curve leaves and enters its end points.
#[derive(Clone, Copy, PartialEq, Eq, Structural, Debug)]
pub enum Orientation {
    Horizontal,
    Vertical,
}

} // verus!
