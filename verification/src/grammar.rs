//! Coarse tangent compatibility and scalar accounting of the span grammar.
//!
//! The jet compatibility here is a bucket comparison used to prune discrete
//! paths; it is not G1. The scalar counts are exact, family by family.

use vstd::prelude::*;

verus! {

/// Buckets the endpoint tangent direction is quantized into (11.25 degrees each).
pub const JET_CLASSES: usize = 32;

/// The k in k-shortest paths.
pub const K_DISCRETE_PATHS: usize = 8;

/// The curve families a span candidate can carry.
#[derive(Debug, Clone, Copy, PartialEq, Eq, Structural)]
pub enum SpanFamily {
    Line,
    CircularArc,
    Quad,
    Cubic,
}

/// Absolute difference of two bucket indices.
pub open spec fn bucket_gap(a: int, b: int) -> int {
    if a >= b { a - b } else { b - a }
}

/// Coarse compatibility: the same bucket, an adjacent one, or the wrap from the
/// last bucket to the first.
pub open spec fn spec_jet_compatible(a: int, b: int) -> bool {
    bucket_gap(a, b) <= 1 || bucket_gap(a, b) == JET_CLASSES - 1
}

/// Coarse tangent compatibility: the same bucket or an adjacent one.
pub fn jet_compatible(a: usize, b: usize) -> (r: bool)
    ensures
        r == spec_jet_compatible(a as int, b as int),
{
    let d = if a >= b { a - b } else { b - a };
    d <= 1 || d == JET_CLASSES - 1
}

/// Compatibility is symmetric, reflexive, and a quarter turn apart is never compatible.
pub proof fn lemma_jet_compatible_symmetric_reflexive(a: int, b: int)
    ensures
        spec_jet_compatible(a, b) == spec_jet_compatible(b, a),
        spec_jet_compatible(a, a),
{
}

/// Two buckets a quarter turn apart (cyclically) are never compatible.
pub proof fn lemma_quarter_turn_incompatible(a: int)
    requires
        0 <= a < JET_CLASSES,
    ensures
        !spec_jet_compatible(a, (a + JET_CLASSES / 4) % (JET_CLASSES as int)),
{
}

/// Whether a family's endpoint tangent can take an arbitrary value.
pub open spec fn spec_tangent_is_free(f: SpanFamily) -> bool {
    f != SpanFamily::Line
}

/// A line's endpoint tangent is its chord; every other family's is free.
pub fn tangent_is_free(f: SpanFamily) -> (r: bool)
    ensures
        r == spec_tangent_is_free(f),
{
    match f {
        SpanFamily::Line => false,
        _ => true,
    }
}

/// Scalars a family still codes, given how many of its two ends read a shared tangent.
pub open spec fn spec_free_scalars(f: SpanFamily, head_shared: bool, tail_shared: bool) -> int {
    let shared: int = (if head_shared { 1int } else { 0int }) + (if tail_shared { 1int } else { 0int });
    match f {
        SpanFamily::Line => 0,
        SpanFamily::CircularArc => if shared == 0 { 1 } else { 0 },
        SpanFamily::Quad => 2 - shared,
        SpanFamily::Cubic => 4 - shared,
    }
}

/// Scalars a family still has to code, given which of its ends read a shared tangent:
/// a line none; an arc one unless a tangent is shared; a quadratic two less one per
/// shared end; a cubic four less one per shared end.
pub fn free_scalars(f: SpanFamily, head_shared: bool, tail_shared: bool) -> (r: usize)
    ensures
        r == spec_free_scalars(f, head_shared, tail_shared),
{
    let shared: usize = (if head_shared { 1usize } else { 0usize }) + (if tail_shared { 1usize } else { 0usize });
    let capped: usize = if shared < 2 { shared } else { 2 };
    match f {
        SpanFamily::Line => 0,
        SpanFamily::CircularArc => if shared == 0 { 1 } else { 0 },
        SpanFamily::Quad => 2 - capped,
        SpanFamily::Cubic => 4 - capped,
    }
}

/// Sharing a tangent never adds a scalar: the count is antitone in each shared end,
/// the head and the tail are interchangeable, and a line never carries one.
pub proof fn lemma_free_scalars_monotone(f: SpanFamily, head: bool, tail: bool)
    ensures
        spec_free_scalars(f, true, tail) <= spec_free_scalars(f, false, tail),
        spec_free_scalars(f, head, true) <= spec_free_scalars(f, head, false),
        spec_free_scalars(f, head, tail) == spec_free_scalars(f, tail, head),
        spec_free_scalars(f, head, tail) >= 0,
        !spec_tangent_is_free(f) ==> spec_free_scalars(f, head, tail) == 0,
{
}

/// Position of a family in the canonical family order.
pub open spec fn spec_family_ord(f: SpanFamily) -> int {
    match f {
        SpanFamily::Line => 0,
        SpanFamily::CircularArc => 1,
        SpanFamily::Quad => 2,
        SpanFamily::Cubic => 3,
    }
}

/// The family at a position of the canonical order.
pub open spec fn spec_family_by_ord(k: int) -> SpanFamily {
    if k == 0 {
        SpanFamily::Line
    } else if k == 1 {
        SpanFamily::CircularArc
    } else if k == 2 {
        SpanFamily::Quad
    } else {
        SpanFamily::Cubic
    }
}

/// Position of a family in the canonical family order.
pub fn family_ord(f: SpanFamily) -> (r: usize)
    ensures
        r == spec_family_ord(f),
        r < 4,
{
    match f {
        SpanFamily::Line => 0,
        SpanFamily::CircularArc => 1,
        SpanFamily::Quad => 2,
        SpanFamily::Cubic => 3,
    }
}

/// The family at a position of the canonical family order.
pub fn family_by_ord(k: usize) -> (f: SpanFamily)
    requires
        k < 4,
    ensures
        f == spec_family_by_ord(k as int),
{
    if k == 0 {
        SpanFamily::Line
    } else if k == 1 {
        SpanFamily::CircularArc
    } else if k == 2 {
        SpanFamily::Quad
    } else {
        SpanFamily::Cubic
    }
}

/// The family order is a bijection between the four families and `0..4`.
pub proof fn lemma_family_ord_round_trip(f: SpanFamily, k: int)
    ensures
        spec_family_by_ord(spec_family_ord(f)) == f,
        0 <= k < 4 ==> spec_family_ord(spec_family_by_ord(k)) == k,
{
}

/// Whether a family can carry shared tangents at the given ends: a quadratic not at
/// its tail, an arc not at both ends.
pub open spec fn spec_family_is_representable(family: SpanFamily, head: bool, tail: bool) -> bool {
    match family {
        SpanFamily::Quad => !tail,
        SpanFamily::CircularArc => !(head && tail),
        _ => true,
    }
}

/// Whether a family can carry shared tangents at the given ends.
pub fn family_is_representable(family: SpanFamily, head: bool, tail: bool) -> (r: bool)
    ensures
        r == spec_family_is_representable(family, head, tail),
{
    match family {
        SpanFamily::Quad => !tail,
        SpanFamily::CircularArc => !(head && tail),
        SpanFamily::Line | SpanFamily::Cubic => true,
    }
}

/// The smooth flag at a join index, reading an absent join as a corner.
pub open spec fn smooth_at(smooth: Seq<bool>, i: int) -> bool {
    0 <= i < smooth.len() && smooth[i]
}

/// A discrete path the shared-tangent representation can carry: no quadratic smooth at
/// both ends, and no smooth join between two lines.
pub open spec fn spec_path_is_representable(smooth: Seq<bool>, families: Seq<SpanFamily>) -> bool {
    &&& forall|i: int|
        0 <= i < families.len() ==> !(#[trigger] families[i] == SpanFamily::Quad && smooth_at(
            smooth,
            i - 1,
        ) && smooth_at(smooth, i))
    &&& forall|i: int|
        0 <= i < smooth.len() ==> !(#[trigger] smooth[i] && i + 1 < families.len()
            && families[i] == SpanFamily::Line && families[i + 1] == SpanFamily::Line)
}

/// Whether the shared-tangent representation can carry a path with these join flags
/// (`smooth[i]` for the join after span `i`) and these span families.
pub fn path_is_representable(smooth: &Vec<bool>, families: &Vec<SpanFamily>) -> (r: bool)
    ensures
        r == spec_path_is_representable(smooth@, families@),
{
    let mut i: usize = 0;
    while i < families.len()
        invariant
            i <= families.len(),
            forall|j: int|
                0 <= j < i ==> !(#[trigger] families@[j] == SpanFamily::Quad && smooth_at(
                    smooth@,
                    j - 1,
                ) && smooth_at(smooth@, j)),
        decreases families.len() - i,
    {
        let head = i > 0 && i - 1 < smooth.len() && smooth[i - 1];
        let tail = i < smooth.len() && smooth[i];
        if families[i] == SpanFamily::Quad && head && tail {
            assert(families@[i as int] == SpanFamily::Quad && smooth_at(smooth@, i - 1)
                && smooth_at(smooth@, i as int));
            return false;
        }
        i = i + 1;
    }
    let mut k: usize = 0;
    while k < smooth.len()
        invariant
            k <= smooth.len(),
            forall|j: int|
                0 <= j < families.len() ==> !(#[trigger] families@[j] == SpanFamily::Quad
                    && smooth_at(smooth@, j - 1) && smooth_at(smooth@, j)),
            forall|j: int|
                0 <= j < k ==> !(#[trigger] smooth@[j] && j + 1 < families.len() && families@[j]
                    == SpanFamily::Line && families@[j + 1] == SpanFamily::Line),
        decreases smooth.len() - k,
    {
        if smooth[k] && k + 1 < families.len() && families[k] == SpanFamily::Line && families[k
            + 1] == SpanFamily::Line {
            assert(smooth@[k as int] && k + 1 < families.len() && families@[k as int]
                == SpanFamily::Line && families@[k + 1] == SpanFamily::Line);
            return false;
        }
        k = k + 1;
    }
    true
}

/// How a cyclic grammar path closes.
#[derive(Debug, Clone, Copy, PartialEq, Eq, Structural)]
pub enum ClosureMode {
    Open,
    Corner,
    Smooth,
}

impl ClosureMode {
    /// Every mode but `Open` closes the path.
    pub fn is_closed(self) -> (r: bool)
        ensures
            r == (self != ClosureMode::Open),
    {
        match self {
            ClosureMode::Open => false,
            _ => true,
        }
    }

    /// Only `Smooth` closes with a shared tangent.
    pub fn is_smooth(self) -> (r: bool)
        ensures
            r == (self == ClosureMode::Smooth),
    {
        match self {
            ClosureMode::Smooth => true,
            _ => false,
        }
    }

    /// The closure state a path starts with when its first span enters at jet class
    /// `entry_class` and is of `family`: only a smooth closure remembers anything,
    /// and its first span's tail is not shared yet.
    pub fn state_for_seed(self, entry_class: usize, family: SpanFamily) -> (r: Option<
        ClosureState,
    >)
        ensures
            self == ClosureMode::Smooth ==> r == Some(
                ClosureState {
                    first_entry_class: entry_class,
                    first_family_ord: spec_family_ord(family) as usize,
                    first_tail_shared: false,
                },
            ),
            self != ClosureMode::Smooth ==> r is None,
    {
        if self.is_smooth() {
            Some(
                ClosureState {
                    first_entry_class: entry_class,
                    first_family_ord: family_ord(family),
                    first_tail_shared: false,
                },
            )
        } else {
            None
        }
    }
}

/// What a smooth closure remembers about the path's first span.
#[derive(Debug, Clone, Copy, PartialEq, Eq, Structural)]
pub struct ClosureState {
    pub first_entry_class: usize,
    pub first_family_ord: usize,
    pub first_tail_shared: bool,
}

impl ClosureState {
    /// The state after one more join: the join that follows the first span records
    /// whether that span's tail is shared; any other join leaves the state unchanged.
    pub fn after_join(self, follows_first: bool, smooth: bool) -> (r: ClosureState)
        ensures
            r.first_entry_class == self.first_entry_class,
            r.first_family_ord == self.first_family_ord,
            r.first_tail_shared == (if follows_first { smooth } else { self.first_tail_shared }),
    {
        let mut s = self;
        if follows_first {
            s.first_tail_shared = smooth;
        }
        s
    }
}

} // verus!
