//! Colour in standard RGB with an alpha channel.
use vstd::prelude::*;
use vstd::string::*;
use crate::number::{Clamp, Number, clamp_int};
use crate::text::{decimal, push_decimal};

verus! {

/// Color in standard RGB color space.
#[derive(Debug, Clone, Copy, PartialEq, Eq, Structural)]
pub struct Rgba {
    pub r: u8,
    pub g: u8,
    pub b: u8,
    pub a: u8,
}

/// Text of a colour: `Rgba(r, g, b, a)` with decimal channels.
pub open spec fn rgba_text(c: Rgba) -> Seq<char> {
    seq!['R', 'g', 'b', 'a', '('] + decimal(c.r as nat) + seq![',', ' '] + decimal(c.g as nat) + seq![
        ',',
        ' ',
    ] + decimal(c.b as nat) + seq![',', ' '] + decimal(c.a as nat) + seq![')']
}

impl Rgba {
    /// Return the max value of RGBA.
    pub fn max_value<T: Number>() -> (r: T)
        ensures
            r.spec_value() == 255,
    {
        T::from_u8(255)
    }

    /// Create a new RGBA color.
    pub fn new(r: u8, g: u8, b: u8, a: u8) -> (c: Self)
        ensures
            c == (Rgba { r, g, b, a }),
    {
        Rgba { r, g, b, a }
    }

    /// Return the value of red.
    pub fn r<T: Number>(&self) -> (v: T)
        ensures
            v.spec_value() == self.r,
    {
        T::from_u8(self.r)
    }

    /// Return the value of green.
    pub fn g<T: Number>(&self) -> (v: T)
        ensures
            v.spec_value() == self.g,
    {
        T::from_u8(self.g)
    }

    /// Return the value of blue.
    pub fn b<T: Number>(&self) -> (v: T)
        ensures
            v.spec_value() == self.b,
    {
        T::from_u8(self.b)
    }

    /// Return the value of alpha.
    pub fn a<T: Number>(&self) -> (v: T)
        ensures
            v.spec_value() == self.a,
    {
        T::from_u8(self.a)
    }

    /// Create a white color.
    pub fn white() -> (c: Self)
        ensures
            c == (Rgba { r: 255, g: 255, b: 255, a: 255 }),
    {
        Rgba { r: 255, g: 255, b: 255, a: 255 }
    }

    /// Create a black color.
    pub fn black() -> (c: Self)
        ensures
            c == (Rgba { r: 0, g: 0, b: 0, a: 255 }),
    {
        Rgba { r: 0, g: 0, b: 0, a: 255 }
    }

    /// Create a red color.
    pub fn red() -> (c: Self)
        ensures
            c == (Rgba { r: 255, g: 0, b: 0, a: 255 }),
    {
        Rgba { r: 255, g: 0, b: 0, a: 255 }
    }

    /// Create a green color.
    pub fn green() -> (c: Self)
        ensures
            c == (Rgba { r: 0, g: 255, b: 0, a: 255 }),
    {
        Rgba { r: 0, g: 255, b: 0, a: 255 }
    }

    /// Create a blue color.
    pub fn blue() -> (c: Self)
        ensures
            c == (Rgba { r: 0, g: 0, b: 255, a: 255 }),
    {
        Rgba { r: 0, g: 0, b: 255, a: 255 }
    }

    /// Create a transparent color.
    pub fn transparent() -> (c: Self)
        ensures
            c == (Rgba { r: 0, g: 0, b: 0, a: 0 }),
    {
        Rgba { r: 0, g: 0, b: 0, a: 0 }
    }

    /// Limit a rounded channel value to the range of a channel.
    pub fn normalize_value(value: i64) -> (r: u8)
        ensures
            r as int == clamp_int(value as int, 0, 255),
    {
        Clamp::clamp(value, 0, 255) as u8
    }

    /// Return the text of this color, `Rgba(r, g, b, a)`.
    pub fn to_string(&self) -> (s: String)
        ensures
            s@ == rgba_text(*self),
    {
        proof {
            reveal_strlit("Rgba(");
            reveal_strlit(", ");
            reveal_strlit(")");
        }
        let mut s = String::from_str("Rgba(");
        push_decimal(&mut s, self.r as u64);
        s.append(", ");
        push_decimal(&mut s, self.g as u64);
        s.append(", ");
        push_decimal(&mut s, self.b as u64);
        s.append(", ");
        push_decimal(&mut s, self.a as u64);
        s.append(")");
        assert(s@ =~= rgba_text(*self));
        s
    }
}

} // verus!
