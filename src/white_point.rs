//! Reference white points.
use vstd::prelude::*;

verus! {

/// Trait for a white point, with tristimulus values in millionths.
pub trait WhitePoint {
    /// The tristimulus value X.
    spec fn spec_x() -> int;

    /// The tristimulus value Y.
    spec fn spec_y() -> int;

    /// The tristimulus value Z.
    spec fn spec_z() -> int;

    /// Return the tristimulus value X.
    fn x() -> (r: i64)
        ensures
            r == Self::spec_x(),
    ;

    /// Return the tristimulus value Y.
    fn y() -> (r: i64)
        ensures
            r == Self::spec_y(),
    ;

    /// Return the tristimulus value Z.
    fn z() -> (r: i64)
        ensures
            r == Self::spec_z(),
    ;
}

/// CIE standard illuminant D65
#[derive(Debug, Clone, Copy, PartialEq, Eq)]
pub struct D65;

impl WhitePoint for D65 {
    open spec fn spec_x() -> int {
        950_456
    }

    open spec fn spec_y() -> int {
        1_000_000
    }

    open spec fn spec_z() -> int {
        1_088_644
    }

    fn x() -> (r: i64) {
        950_456
    }

    fn y() -> (r: i64) {
        1_000_000
    }

    fn z() -> (r: i64) {
        1_088_644
    }
}

} // verus!
