//! The exterior model a formation hypothesis and a palette hypothesis must share.
//! The exterior is derived from the palette; pairing a formation with a palette by
//! hand is checked, and a disagreement is a typed refusal naming both sides.

use vstd::prelude::*;

use crate::refusals::FormationMismatch;

verus! {

/// Whether the canvas outside the shapes is transparent or an opaque face.
#[derive(Debug, Clone, Copy, PartialEq, Eq, Structural)]
pub enum ExteriorModel {
    Transparent,
    Opaque,
}

/// The name an exterior model is reported by.
pub open spec fn spec_exterior_name(e: ExteriorModel) -> Seq<char> {
    match e {
        ExteriorModel::Transparent => "transparent"@,
        ExteriorModel::Opaque => "opaque"@,
    }
}

/// The name an exterior model is reported by.
pub fn exterior_name(e: ExteriorModel) -> (r: &'static str)
    ensures
        r@ == spec_exterior_name(e),
{
    match e {
        ExteriorModel::Transparent => "transparent",
        ExteriorModel::Opaque => "opaque",
    }
}

/// Check that a formation's exterior agrees with the one its palette implies;
/// otherwise refuse, naming the formation's exterior and the palette's.
pub fn check_agreement(formation_exterior: ExteriorModel, palette_exterior: ExteriorModel) -> (r:
    Result<(), FormationMismatch>)
    ensures
        r is Ok <==> formation_exterior == palette_exterior,
        r matches Err(m) ==> m.formation@ == spec_exterior_name(formation_exterior)
            && m.palette@ == spec_exterior_name(palette_exterior),
{
    if formation_exterior == palette_exterior {
        Ok(())
    } else {
        Err(
            FormationMismatch {
                formation: exterior_name(formation_exterior),
                palette: exterior_name(palette_exterior),
            },
        )
    }
}

} // verus!
