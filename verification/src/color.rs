//! Colors with three 8-bit channels and their packed storage form.
use vstd::prelude::*;

verus! {

/// A color with three 8-bit channels and no alpha.
#[derive(Clone, Copy, Debug, PartialEq, Eq, Structural)]
pub struct Color {
    pub red: u8,
    pub green: u8,
    pub blue: u8,
}

/// The value every pixel holds after a clear: black.
pub const BACKGROUND: u32 = 0;

impl Color {
    /// The packed form of a color: blue in the low byte, green in the middle
    /// byte, red in the high byte of a 24-bit value.
    pub open spec fn packed(self) -> u32 {
        (self.blue as int + 256 * (self.green as int) + 65536 * (self.red as int)) as u32
    }

    /// A color from its three channels.
    pub fn new(red: u8, green: u8, blue: u8) -> (color: Color)
        ensures
            color == (Color { red, green, blue }),
    {
        Color { red, green, blue }
    }

    /// The gray whose three channels all equal `level`.
    pub fn gray(level: u8) -> (color: Color)
        ensures
            color == (Color { red: level, green: level, blue: level }),
    {
        Color { red: level, green: level, blue: level }
    }

    /// Packs the color for storage in a pixel buffer.
    pub fn pack(self) -> (word: u32)
        ensures
            word == self.packed(),
            word < 0x100_0000,
    {
        let blue: u32 = self.blue as u32;
        let green: u32 = self.green as u32;
        let red: u32 = self.red as u32;
        assert((blue | green << 8 | red << 16) == blue + 256 * green + 65536 * red) by (bit_vector)
            requires
                blue < 256,
                green < 256,
                red < 256,
        ;
        blue | green << 8 | red << 16
    }
}

} // verus!
