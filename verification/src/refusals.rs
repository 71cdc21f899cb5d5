//! Typed refusals of the evidence lanes, and the plain records they publish.

use vstd::prelude::*;

verus! {

/// Why the line-art lane produced no stroke scene.
#[derive(Debug, Clone, PartialEq, Eq)]
pub enum LineArtRefusal {
    /// No measurable foreground/background contrast.
    NoContrast,
    /// The foreground is empty or fills the whole canvas.
    DegenerateForeground,
    /// The mask holds an isolated dot with no centerline edge.
    IsolatedDot,
    /// The skeleton graph exceeds the bounded edge/vertex inventory.
    GraphBudget,
    /// The graph could not be built.
    Graph { detail: String },
}

/// Why the opaque-gradient lane produced no proposal.
#[derive(Debug, Clone, PartialEq, Eq)]
pub enum GradientEvidenceRefusal {
    /// The lane does not accept non-opaque source pixels.
    NonOpaqueSource,
    /// The proposal work exceeds its bound.
    WorkLimit { operations: u64, limit: u64 },
    /// No valid compact geometry could be built.
    InvalidProposal { detail: String },
}

/// Why the multicolour lane produced no proposal.
#[derive(Debug, Clone, PartialEq, Eq)]
pub enum MulticolorRefusal {
    /// Fewer supported opaque modes than the lane needs.
    TooFewSupportedModes { required: usize, found: usize },
    /// The configured palette range is malformed.
    MalformedConfig,
    /// The palette cardinality exceeds the canonical `u16` label space.
    LabelSpaceExhausted,
}

/// A formation hypothesis and a palette that disagree about the exterior model.
#[derive(Debug, Clone, PartialEq, Eq)]
pub struct FormationMismatch {
    pub formation: &'static str,
    pub palette: &'static str,
}

/// What the decode knows about the input image.
#[derive(Debug, Clone, PartialEq, Eq)]
pub struct ImageFacts {
    pub width_px: u32,
    pub height_px: u32,
    pub source_sha256: String,
    pub source_had_alpha: bool,
    pub icc_assumption: &'static str,
    pub icc_was_assumed: bool,
}

/// One refused (palette, formation) pair, with the reason.
#[derive(Debug, Clone, PartialEq, Eq)]
pub struct RefusedPair {
    pub palette: String,
    pub formation: String,
    pub reason: String,
}

} // verus!
