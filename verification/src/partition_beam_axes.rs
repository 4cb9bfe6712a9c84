//! The releases on which a beam's axis is read from its bounded line.

use vstd::prelude::*;

verus! {

/// Whether a beam's bounded-line layout is measured on this release: 2024
/// only.
pub fn supports_revit_version(revit_version: u32) -> (r: bool)
    ensures
        r == (revit_version == 2024),
{
    revit_version == 2024
}

} // verus!
