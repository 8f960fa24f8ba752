//! CIE XYZ and CIE L*a*b* colours with fixed-point channels.
//!
//! Channels count millionths, as coordinates do: an `l` of `53_230_000`
//! stands for `L* = 53.23`. The constructors clamp each channel to its range.
use vstd::prelude::*;
use vstd::string::*;
use crate::number::{Clamp, clamp_int};
use crate::text::{fixed_text, push_fixed};

verus! {

/// Largest `x` of an XYZ colour under D65, in millionths.
pub const XYZ_MAX_X: i64 = 950_456;

/// Largest `y` of an XYZ colour under D65, in millionths.
pub const XYZ_MAX_Y: i64 = 1_000_000;

/// Largest `z` of an XYZ colour under D65, in millionths.
pub const XYZ_MAX_Z: i64 = 1_088_644;

/// Largest `L*`, in millionths.
pub const LAB_MAX_L: i64 = 100_000_000;

/// Smallest `a*` and `b*`, in millionths.
pub const LAB_MIN_AB: i64 = -128_000_000;

/// Largest `a*` and `b*`, in millionths.
pub const LAB_MAX_AB: i64 = 127_000_000;

/// Color in CIE XYZ color space.
#[derive(Debug, Clone, Copy, PartialEq, Eq, Structural)]
pub struct XYZ {
    pub x: i64,
    pub y: i64,
    pub z: i64,
}

impl XYZ {
    /// Create a color in CIE XYZ color space, clamped to the D65 box.
    pub fn new(x: i64, y: i64, z: i64) -> (r: Self)
        ensures
            r.x == clamp_int(x as int, 0, XYZ_MAX_X as int),
            r.y == clamp_int(y as int, 0, XYZ_MAX_Y as int),
            r.z == clamp_int(z as int, 0, XYZ_MAX_Z as int),
    {
        XYZ {
            x: Clamp::clamp(x, 0, XYZ_MAX_X),
            y: Clamp::clamp(y, 0, XYZ_MAX_Y),
            z: Clamp::clamp(z, 0, XYZ_MAX_Z),
        }
    }

    /// Return the text `XYZ(...)` of the channels as decimals.
    pub fn to_string(&self) -> (s: String)
        ensures
            s@ == seq!['X', 'Y', 'Z', '(']
                + fixed_text(self.x as int)
                + seq![',', ' ']
                + fixed_text(self.y as int)
                + seq![',', ' ']
                + fixed_text(self.z as int)
                + seq![')'],
    {
        proof {
            reveal_strlit("XYZ(");
            reveal_strlit(", ");
            reveal_strlit(")");
        }
        let mut s = String::from_str("XYZ(");
        push_fixed(&mut s, self.x);
        s.append(", ");
        push_fixed(&mut s, self.y);
        s.append(", ");
        push_fixed(&mut s, self.z);
        s.append(")");
        assert(s@ =~= seq!['X', 'Y', 'Z', '(']
            + fixed_text(self.x as int)
            + seq![',', ' ']
            + fixed_text(self.y as int)
            + seq![',', ' ']
            + fixed_text(self.z as int)
            + seq![')']);
        s
    }
}

/// Color in CIE L*a*b* color space.
#[derive(Debug, Clone, Copy, PartialEq, Eq, Structural)]
pub struct Lab {
    pub l: i64,
    pub a: i64,
    pub b: i64,
}

impl Lab {
    /// Create a color in CIE L*a*b* color space, clamped to its ranges.
    pub fn new(l: i64, a: i64, b: i64) -> (r: Self)
        ensures
            r.l == clamp_int(l as int, 0, LAB_MAX_L as int),
            r.a == clamp_int(a as int, LAB_MIN_AB as int, LAB_MAX_AB as int),
            r.b == clamp_int(b as int, LAB_MIN_AB as int, LAB_MAX_AB as int),
    {
        Lab {
            l: Clamp::clamp(l, 0, LAB_MAX_L),
            a: Clamp::clamp(a, LAB_MIN_AB, LAB_MAX_AB),
            b: Clamp::clamp(b, LAB_MIN_AB, LAB_MAX_AB),
        }
    }

    /// Return the text `Lab(...)` of the channels as decimals.
    pub fn to_string(&self) -> (s: String)
        ensures
            s@ == seq!['L', 'a', 'b', '(']
                + fixed_text(self.l as int)
                + seq![',', ' ']
                + fixed_text(self.a as int)
                + seq![',', ' ']
                + fixed_text(self.b as int)
                + seq![')'],
    {
        proof {
            reveal_strlit("Lab(");
            reveal_strlit(", ");
            reveal_strlit(")");
        }
        let mut s = String::from_str("Lab(");
        push_fixed(&mut s, self.l);
        s.append(", ");
        push_fixed(&mut s, self.a);
        s.append(", ");
        push_fixed(&mut s, self.b);
        s.append(")");
        assert(s@ =~= seq!['L', 'a', 'b', '(']
            + fixed_text(self.l as int)
            + seq![',', ' ']
            + fixed_text(self.a as int)
            + seq![',', ' ']
            + fixed_text(self.b as int)
            + seq![')']);
        s
    }

    /// Whether every channel lies in its range.
    pub open spec fn in_range(self) -> bool {
        &&& 0 <= self.l <= LAB_MAX_L
        &&& LAB_MIN_AB <= self.a <= LAB_MAX_AB
        &&& LAB_MIN_AB <= self.b <= LAB_MAX_AB
    }
}

} // verus!
