use vstd::prelude::*;

verus! {

/// A voxel's colour, stored as exact integer numerators: the renderer
/// divides `r` by 100, `g` by 10 and `b` by 55 to obtain the unit-range
/// channels it uploads. Keeping the numerators makes the colour a plain
/// value that contracts can speak about exactly.
#[derive(Clone, Copy, PartialEq, Eq, Structural, Debug)]
pub struct BlockColor {
    /// Red numerator, denominator 100.
    pub r: u8,
    /// Green numerator, denominator 10.
    pub g: u8,
    /// Blue numerator, denominator 55.
    pub b: u8,
}

/// A single voxel: a coloured unit cube with a visibility flag. The colour
/// is fixed at generation time; `visible` is computed once by the
/// occlusion pass and is false only for voxels whose six axis-neighbours
/// are all occupied.
#[derive(Clone, Copy, PartialEq, Eq, Structural, Debug)]
pub struct Block {
    pub color: BlockColor,
    pub visible: bool,
}

} // verus!
