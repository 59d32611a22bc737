//! Text and background colors, and the perceptual brightness comparison used
//! to pick a scanline tint that contrasts with the background.

use vstd::prelude::*;

verus! {

/// An RGBA color. Each channel is stored in thousandths of full intensity:
/// a channel value of 1000 stands for 1.0 (full), 160 for 0.16, 0 for none.
#[derive(Clone, Copy, PartialEq, Eq, Structural, Debug)]
pub struct Color {
    pub r: u32,
    pub g: u32,
    pub b: u32,
    pub a: u32,
}

/// The squared, alpha-scaled brightness of a color.
///
/// The perceived brightness of a color with unit-range channels is
/// `sqrt(0.241 r^2 + 0.691 g^2 + 0.068 b^2) * a`. Squaring that (the square
/// root is monotonic and both sides are non-negative) and clearing the
/// thousandth-range denominators gives `(241 r^2 + 691 g^2 + 68 b^2) * a^2`
/// on channels in 0..=1000, which orders colors exactly as the perceived
/// brightness does and is zero exactly when it is.
pub open spec fn brightness_measure(c: Color) -> int {
    (241 * ((c.r as int) * (c.r as int)) + 691 * ((c.g as int) * (c.g as int)) + 68 * ((
    c.b as int) * (c.b as int))) * ((c.a as int) * (c.a as int))
}

impl Color {
    /// All four channels lie inside the unit range.
    pub open spec fn wf(self) -> bool {
        self.r <= 1000 && self.g <= 1000 && self.b <= 1000 && self.a <= 1000
    }

    /// Builds a color from its four channels, given in thousandths.
    pub fn new(r: u32, g: u32, b: u32, a: u32) -> (c: Color)
        requires
            r <= 1000,
            g <= 1000,
            b <= 1000,
            a <= 1000,
        ensures
            c == (Color { r, g, b, a }),
            c.wf(),
    {
        Color { r, g, b, a }
    }

    /// The brightness score of this color: zero for a fully transparent
    /// color, largest for opaque white. Only the ordering of scores is
    /// meaningful; see [`brightness_measure`].
    pub fn brightness(&self) -> (m: u64)
        requires
            self.wf(),
        ensures
            m as int == brightness_measure(*self),
    {
        let r = self.r as u64;
        let g = self.g as u64;
        let b = self.b as u64;
        let a = self.a as u64;
        proof {
            assert(r * r <= 1000000) by (nonlinear_arith)
                requires
                    r <= 1000,
            ;
            assert(g * g <= 1000000) by (nonlinear_arith)
                requires
                    g <= 1000,
            ;
            assert(b * b <= 1000000) by (nonlinear_arith)
                requires
                    b <= 1000,
            ;
        }
        let weighted: u64 = 241 * (r * r) + 691 * (g * g) + 68 * (b * b);
        proof {
            assert(a * a <= 1000000) by (nonlinear_arith)
                requires
                    a <= 1000,
            ;
            assert(weighted * (a * a) <= 1000000000 * 1000000) by (nonlinear_arith)
                requires
                    weighted <= 1000000000,
                    a * a <= 1000000,
            ;
        }
        weighted * (a * a)
    }

    /// Whether this color is perceived as brighter than `other`.
    pub fn brighter_than(&self, other: Color) -> (res: bool)
        requires
            self.wf(),
            other.wf(),
        ensures
            res == (brightness_measure(*self) > brightness_measure(other)),
    {
        self.brightness() > other.brightness()
    }
}

} // verus!
