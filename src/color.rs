use vstd::prelude::*;

verus! {

/// A packed RGBA pixel: red in the lowest byte, then green, blue and alpha.
#[derive(Clone, Copy, Debug, PartialEq, Eq, Structural)]
pub struct Color(pub u32);

/// The packed value of an opaque colour with the given channels.
pub open spec fn packed_rgb(r: u8, g: u8, b: u8) -> u32 {
    (r as u32 + (g as u32) * 0x100 + (b as u32) * 0x1_0000 + 0xFF00_0000) as u32
}

impl Color {
    /// An opaque colour from its red, green and blue channels.
    pub fn rgb(r: u8, g: u8, b: u8) -> (c: Color)
        ensures
            c.0 == packed_rgb(r, g, b),
            c.0 as int == r as int + 0x100 * (g as int) + 0x1_0000 * (b as int) + 0xFF00_0000,
    {
        let v: u32 = r as u32 | ((g as u32) << 8u32) | ((b as u32) << 16u32) | 0xFF00_0000u32;
        proof {
            let (r32, g32, b32) = (r as u32, g as u32, b as u32);
            assert(r32 < 0x100 && g32 < 0x100 && b32 < 0x100);
            assert((r32 | (g32 << 8u32) | (b32 << 16u32) | 0xFF00_0000u32) == r32 + g32 * 0x100
                + b32 * 0x1_0000 + 0xFF00_0000u32) by (bit_vector)
                requires
                    r32 < 0x100 && g32 < 0x100 && b32 < 0x100,
            ;
        }
        Color(v)
    }

    /// The packed RGBA value.
    pub fn as_rgba_u32(self) -> (v: u32)
        ensures
            v == self.0,
    {
        self.0
    }
}

/// The packed background colour of the board.
pub const BG_COLOR: u32 = 0xFFE8_B248;

/// The packed colour of the snake's head.
pub const HEAD_COLOR: u32 = 0xFFE8_384E;

/// The packed colour of the snake's tail.
pub const TAIL_COLOR: u32 = 0xFFE8_485E;

/// The packed colour of a food cell.
pub const FOOD_COLOR: u32 = 0xFFE8_289E;

} // verus!
