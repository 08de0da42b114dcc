//! The small enumerations of the editor: tools, noise kinds and trace modes.
use vstd::prelude::*;

verus! {

/// The drawing tool in use.
#[derive(Clone, Copy, Debug, PartialEq, Eq, Structural)]
pub enum Tool {
    Select,
    Pen,
    Text,
    Rect,
    Ellipse,
}

/// The kind of noise a noise effect draws.
#[derive(Clone, Copy, Debug, PartialEq, Eq, Structural)]
pub enum NoiseType {
    Perlin,
    Simplex,
    Worley,
}

/// How an image is traced into vector paths.
#[derive(Clone, Copy, Debug, PartialEq, Eq, Structural)]
pub enum TraceMode {
    /// Colour tracing.
    Color,
    /// Black-and-white tracing.
    Binary,
}

} // verus!
