use vstd::prelude::*;

verus! {

/// The order in which the three axis rotations of an Euler triple are applied.
#[derive(Debug, Clone, Copy, PartialEq, Eq, Structural)]
pub enum EulerOrder {
    XYZ,
    YZX,
    ZXY,
    XZY,
    YXZ,
    ZYX,
}

} // verus!
