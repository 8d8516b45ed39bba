use vstd::prelude::*;

verus! {

/// Reason why a quadtree couldn't be rendered to an image buffer.
#[derive(Debug, Clone, Copy, PartialEq, Eq, Structural)]
pub enum DrawError {
    /// The image buffer's dimensions are not equal; the image is not a square.
    NonSquare,
    /// The image buffer's dimensions are not powers of two.
    NonPowerOfTwo,
    /// A color specified in the quadtree is outside the range of the palette.
    ColorOutOfRange,
}

/// Reason why an image couldn't be turned into a quadtree.
#[derive(Debug, Clone, Copy, PartialEq, Eq, Structural)]
pub enum AnalyzeError {
    /// The image buffer's dimensions are not equal; the image is not a square.
    NonSquare,
    /// The image buffer's dimensions are not powers of two.
    NonPowerOfTwo,
}

/// Reason why a quadtree couldn't be encoded.
#[derive(Debug, Clone, Copy, PartialEq, Eq, Structural)]
pub enum EncodeError {
    /// A color specified in the quadtree is outside the range of the palette.
    ColorOutOfRange,
}

/// Reason why a quadtree encoding couldn't be decoded.
#[derive(Debug, Clone, Copy, PartialEq, Eq, Structural)]
pub enum DecodeError {
    /// A node was expected but the data ended before it was complete.
    InsufficientData,
    /// There was no valid QTI file header, or its version is not supported.
    MissingHeader,
    /// The header announces more palette entries than can be addressed.
    PaletteTooLarge,
}

/// Reason why a grid of palette colors couldn't be made into a quadtree.
#[derive(Debug, Clone, Copy, PartialEq, Eq, Structural)]
pub enum MountError {
    /// The size of the grid is not a power of 4.
    InvalidSize,
    /// A selected color lies outside the extent of the palette.
    ColorOutOfRange,
}

} // verus!
