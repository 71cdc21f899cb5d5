//! The finite universe of whole-loop primitives and their parameter counts.

use vstd::prelude::*;

verus! {

/// The whole-loop primitive families.
#[derive(Debug, Clone, Copy, PartialEq, Eq, Structural)]
pub enum LoopPrimitiveKind {
    Circle,
    Ellipse,
    Rect,
    RotatedRect,
    RoundedRect,
    Capsule,
    RegularPolygon,
}

/// Every family, in canonical order.
pub const LOOP_PRIMITIVE_KINDS: [LoopPrimitiveKind; 7] = [
    LoopPrimitiveKind::Circle,
    LoopPrimitiveKind::Ellipse,
    LoopPrimitiveKind::Rect,
    LoopPrimitiveKind::RotatedRect,
    LoopPrimitiveKind::RoundedRect,
    LoopPrimitiveKind::Capsule,
    LoopPrimitiveKind::RegularPolygon,
];

impl LoopPrimitiveKind {
    /// The snake-case name of the family.
    pub open spec fn spec_universe_name(self) -> Seq<char> {
        match self {
            LoopPrimitiveKind::Circle => "circle"@,
            LoopPrimitiveKind::Ellipse => "ellipse"@,
            LoopPrimitiveKind::Rect => "rect"@,
            LoopPrimitiveKind::RotatedRect => "rotated_rect"@,
            LoopPrimitiveKind::RoundedRect => "rounded_rect"@,
            LoopPrimitiveKind::Capsule => "capsule"@,
            LoopPrimitiveKind::RegularPolygon => "regular_polygon"@,
        }
    }

    /// Coordinate-like parameters (pixels): centre and extents, plus a corner radius
    /// for the rounded rectangle.
    pub open spec fn spec_coordinate_parameters(self) -> nat {
        match self {
            LoopPrimitiveKind::Circle => 3,
            LoopPrimitiveKind::Ellipse => 4,
            LoopPrimitiveKind::Rect => 4,
            LoopPrimitiveKind::RotatedRect => 4,
            LoopPrimitiveKind::RoundedRect => 5,
            LoopPrimitiveKind::Capsule => 4,
            LoopPrimitiveKind::RegularPolygon => 3,
        }
    }

    /// Angle-like parameters (radians): one orientation for every family that has one.
    pub open spec fn spec_angle_parameters(self) -> nat {
        match self {
            LoopPrimitiveKind::Circle | LoopPrimitiveKind::Rect => 0,
            _ => 1,
        }
    }

    /// The snake-case name of the family.
    pub fn universe_name(self) -> (r: &'static str)
        ensures
            r@ == self.spec_universe_name(),
    {
        match self {
            LoopPrimitiveKind::Circle => "circle",
            LoopPrimitiveKind::Ellipse => "ellipse",
            LoopPrimitiveKind::Rect => "rect",
            LoopPrimitiveKind::RotatedRect => "rotated_rect",
            LoopPrimitiveKind::RoundedRect => "rounded_rect",
            LoopPrimitiveKind::Capsule => "capsule",
            LoopPrimitiveKind::RegularPolygon => "regular_polygon",
        }
    }

    /// Coordinate-like continuous parameters coded in pixels.
    pub fn coordinate_parameters(self) -> (r: usize)
        ensures
            r == self.spec_coordinate_parameters(),
    {
        match self {
            LoopPrimitiveKind::Circle => 3,
            LoopPrimitiveKind::Ellipse => 4,
            LoopPrimitiveKind::Rect => 4,
            LoopPrimitiveKind::RotatedRect => 4,
            LoopPrimitiveKind::RoundedRect => 5,
            LoopPrimitiveKind::Capsule => 4,
            LoopPrimitiveKind::RegularPolygon => 3,
        }
    }

    /// Angle-like parameters coded in radians.
    pub fn angle_parameters(self) -> (r: usize)
        ensures
            r == self.spec_angle_parameters(),
    {
        match self {
            LoopPrimitiveKind::Circle | LoopPrimitiveKind::Rect => 0,
            LoopPrimitiveKind::Ellipse
            | LoopPrimitiveKind::RotatedRect
            | LoopPrimitiveKind::RoundedRect
            | LoopPrimitiveKind::Capsule
            | LoopPrimitiveKind::RegularPolygon => 1,
        }
    }

    /// All continuous parameters: coordinates plus angles.
    pub fn free_parameters(self) -> (r: usize)
        ensures
            r == self.spec_coordinate_parameters() + self.spec_angle_parameters(),
    {
        self.coordinate_parameters() + self.angle_parameters()
    }
}

/// Every family has between three and six free parameters, and the canonical list
/// names each family once.
pub proof fn lemma_primitive_universe(k: LoopPrimitiveKind)
    ensures
        3 <= k.spec_coordinate_parameters() + k.spec_angle_parameters() <= 6,
        exists|i: int| 0 <= i < 7 && LOOP_PRIMITIVE_KINDS@[i] == k,
        forall|i: int, j: int|
            0 <= i < 7 && 0 <= j < 7 && i != j ==> LOOP_PRIMITIVE_KINDS@[i]
                != LOOP_PRIMITIVE_KINDS@[j],
{
    let all = LOOP_PRIMITIVE_KINDS@;
    match k {
        LoopPrimitiveKind::Circle => assert(all[0] == k),
        LoopPrimitiveKind::Ellipse => assert(all[1] == k),
        LoopPrimitiveKind::Rect => assert(all[2] == k),
        LoopPrimitiveKind::RotatedRect => assert(all[3] == k),
        LoopPrimitiveKind::RoundedRect => assert(all[4] == k),
        LoopPrimitiveKind::Capsule => assert(all[5] == k),
        LoopPrimitiveKind::RegularPolygon => assert(all[6] == k),
    }
}

} // verus!
