//! The commands the program accepts: which stencil to build and what to do
//! with it. Paths are kept as strings; reading them is the caller's work.

use vstd::prelude::*;

verus! {

/// The parsed command line.
pub struct Arguments {
    pub command_type: GeneratorType,
}

/// What to run: composite images through a generated stencil (`Dynamic`) or
/// through a stencil image (`Static`), or only generate a stencil.
pub enum GeneratorType {
    Dynamic(DynamicCommand),
    Static(StaticCommand),
    GenerateStencil(GenerateStencilCommand),
}

/// Composite an image, or every image of a folder, through a stencil generated
/// at the image's size.
pub struct DynamicCommand {
    pub input: String,
    pub output: String,
    pub alpha_averaging: bool,
    pub generator: Generator,
}

/// Composite an image through a stencil read from disk.
pub struct StaticCommand {
    pub stencil: String,
    pub alpha_averaging: bool,
    pub input: String,
    pub output: String,
}

/// Generate a stencil of the given size and save it.
pub struct GenerateStencilCommand {
    pub width: u32,
    pub height: u32,
    pub output: String,
    pub generator: Generator,
}

/// How a stencil partitions the canvas.
pub enum Generator {
    SquareGrid(SquareGridCommand),
    CircleGrid(CircleGridCommand),
    ConcentricCircleGrid(ConcentricCircleGridCommand),
    CrossGrid(CrossGridCommand),
    MaskGrid(MaskGridCommand),
    FloodFill(FloodFillCommand),
}

#[derive(Clone, Copy, Debug, PartialEq, Eq, Structural)]
pub struct SquareGridCommand {
    pub side_length: u32,
}

#[derive(Clone, Copy, Debug, PartialEq, Eq, Structural)]
pub struct CircleGridCommand {
    pub radius: u32,
}

#[derive(Clone, Copy, Debug, PartialEq, Eq, Structural)]
pub struct ConcentricCircleGridCommand {
    pub radius: u32,
}

#[derive(Clone, Copy, Debug, PartialEq, Eq, Structural)]
pub struct CrossGridCommand {
    pub cross_intersection_width: u32,
}

/// Tile the masks found in a folder.
pub struct MaskGridCommand {
    pub mask_folder: String,
}

/// Segment an existing image by flood fill.
pub struct FloodFillCommand {
    pub mask_path: String,
}

} // verus!
