//! Region-averaging stencil painting.
//!
//! A *stencil* is an image whose pixel colours encode segment indices. The
//! generators partition a canvas into segments and paint such a stencil; the
//! compositor replaces every pixel of a content image by the average colour of
//! its segment.

pub mod arith;
pub mod args;
pub mod bounds;
pub mod circle;
pub mod codec;
pub mod cross;
pub mod flood;
pub mod generators;
pub mod image_tools;
pub mod masks;
pub mod rings;
pub mod stencil;
pub mod stenciler;

pub use args::{
    Arguments, CircleGridCommand, ConcentricCircleGridCommand, CrossGridCommand, DynamicCommand,
    FloodFillCommand, GenerateStencilCommand, Generator, GeneratorType, MaskGridCommand,
    SquareGridCommand, StaticCommand,
};
pub use codec::{rgb_to_index, segment_index_to_rgb};
pub use generators::{generate_stencil, generate_stencil_from_image, GeneratorInput, StencilError};
pub use image_tools::{BoolMask, RawImage};
pub use stenciler::cpu_pipeline;
