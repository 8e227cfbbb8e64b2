//! Typed failures reported by the builder before any growth runs.

use vstd::prelude::*;

verus! {

/// Configuration errors: all are detected while building, never during
/// growth itself.
#[derive(Debug, Clone, Copy, PartialEq, Eq, Structural)]
pub enum Error {
    /// The builder was asked to build with no growth stage declared.
    NoStagesDefined,
    /// The builder was asked to build with no layer declared.
    NoLayersDefined,
    /// A stage was declared without palette colors.
    NoPaletteDefined,
    /// A layer, or the whole canvas, is too large for flat indexing.
    CanvasTooLarge,
    /// A color string is not six hex digits after its leading hash marks.
    InvalidColor,
}

impl Error {
    /// A short human-readable name for the error.
    pub fn describe(&self) -> (r: &'static str)
        ensures
            r == match *self {
                Error::NoStagesDefined => "no stages defined",
                Error::NoLayersDefined => "no layers defined",
                Error::NoPaletteDefined => "no palette defined",
                Error::CanvasTooLarge => "canvas too large",
                Error::InvalidColor => "invalid color",
            },
    {
        match *self {
            Error::NoStagesDefined => "no stages defined",
            Error::NoLayersDefined => "no layers defined",
            Error::NoPaletteDefined => "no palette defined",
            Error::CanvasTooLarge => "canvas too large",
            Error::InvalidColor => "invalid color",
        }
    }
}

} // verus!
