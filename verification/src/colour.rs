//! The colour profiles of an image header: their wire codes and the bit
//! depths each one admits.

use vstd::prelude::*;

verus! {

/// The colour type that an image header declares.
#[derive(Clone, Copy, Debug, PartialEq, Eq)]
pub enum ColourType {
    Grayscale,
    RGB,
    Palette,
    GrayscaleAlpha,
    RGBAlpha,
}

impl ColourType {
    /// The bit depths that the colour type admits.
    pub open spec fn legal_bit_depths(self) -> Set<u8> {
        match self {
            ColourType::Grayscale => set![1u8, 2u8, 4u8, 8u8, 16u8],
            ColourType::RGB => set![8u8, 16u8],
            ColourType::Palette => set![1u8, 2u8, 4u8, 8u8],
            ColourType::GrayscaleAlpha => set![8u8, 16u8],
            ColourType::RGBAlpha => set![8u8, 16u8],
        }
    }

    /// The number that stands for the colour type in an image header.
    pub open spec fn wire_code(self) -> u8 {
        match self {
            ColourType::Grayscale => 0,
            ColourType::RGB => 2,
            ColourType::Palette => 3,
            ColourType::GrayscaleAlpha => 4,
            ColourType::RGBAlpha => 6,
        }
    }

    /// Whether the colour type admits the bit depth.
    pub fn valid_bit_depth(&self, bit_depth: u8) -> (valid: bool)
        ensures
            valid == self.legal_bit_depths().contains(bit_depth),
    {
        match self {
            ColourType::Grayscale => {
                bit_depth == 1 || bit_depth == 2 || bit_depth == 4 || bit_depth == 8
                    || bit_depth == 16
            },
            ColourType::RGB => bit_depth == 8 || bit_depth == 16,
            ColourType::Palette => {
                bit_depth == 1 || bit_depth == 2 || bit_depth == 4 || bit_depth == 8
            },
            ColourType::GrayscaleAlpha => bit_depth == 8 || bit_depth == 16,
            ColourType::RGBAlpha => bit_depth == 8 || bit_depth == 16,
        }
    }

    /// The number that stands for the colour type in an image header.
    pub fn get_code(&self) -> (code: u8)
        ensures
            code == self.wire_code(),
    {
        match self {
            ColourType::Grayscale => 0,
            ColourType::RGB => 2,
            ColourType::Palette => 3,
            ColourType::GrayscaleAlpha => 4,
            ColourType::RGBAlpha => 6,
        }
    }
}

} // verus!
