//! The readings a two-face palette hypothesis can be, and why a colour can be an
//! interval rather than a point.

use vstd::prelude::*;

verus! {

/// Why a colour is an interval rather than a point.
#[derive(Debug, Clone, Copy, PartialEq, Eq, Structural)]
pub enum IntervalReason {
    /// The shape is never fully covered, so the paint is recovered by dividing by a
    /// coverage below one, which amplifies the 8-bit quantization.
    QuantizationAmplifiedByCoverage,
    /// Over an opaque background the paint lies on a ray from the background through
    /// the most extreme observation, clipped to the gamut.
    GamutBoundedRay,
}

/// Which reading of a two-face image a hypothesis is.
#[derive(Debug, Clone, Copy, PartialEq, Eq, Structural)]
pub enum Flat2Kind {
    TransparentExteriorForeground,
    BorderSupportedBackground,
    FullBleedTwoFace,
    LabelSwappedFullBleed,
    /// Supplied by the caller; marks the run non-production.
    OracleOverride,
}

impl Flat2Kind {
    /// The snake-case name of the reading.
    pub open spec fn spec_as_str(self) -> Seq<char> {
        match self {
            Flat2Kind::TransparentExteriorForeground => "transparent_exterior_foreground"@,
            Flat2Kind::BorderSupportedBackground => "border_supported_background"@,
            Flat2Kind::FullBleedTwoFace => "full_bleed_two_face"@,
            Flat2Kind::LabelSwappedFullBleed => "label_swapped_full_bleed"@,
            Flat2Kind::OracleOverride => "oracle_override"@,
        }
    }

    /// The snake-case name of the reading.
    pub fn as_str(&self) -> (r: &'static str)
        ensures
            r@ == self.spec_as_str(),
    {
        match self {
            Flat2Kind::TransparentExteriorForeground => "transparent_exterior_foreground",
            Flat2Kind::BorderSupportedBackground => "border_supported_background",
            Flat2Kind::FullBleedTwoFace => "full_bleed_two_face",
            Flat2Kind::LabelSwappedFullBleed => "label_swapped_full_bleed",
            Flat2Kind::OracleOverride => "oracle_override",
        }
    }

    /// True when this hypothesis rests on the assumption that the canvas border shows
    /// the background: only the border-supported reading does.
    pub fn assumes_border_is_background(&self) -> (r: bool)
        ensures
            r == (*self == Flat2Kind::BorderSupportedBackground),
    {
        match self {
            Flat2Kind::BorderSupportedBackground => true,
            _ => false,
        }
    }

    /// True only for the caller-supplied override.
    pub fn is_oracle_override(&self) -> (r: bool)
        ensures
            r == (*self == Flat2Kind::OracleOverride),
    {
        match self {
            Flat2Kind::OracleOverride => true,
            _ => false,
        }
    }
}

} // verus!
