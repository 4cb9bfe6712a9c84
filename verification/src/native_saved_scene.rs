//! The status a saved-graphics scene gives each element.

use vstd::prelude::*;

verus! {

/// The status of an element whose saved graphics decoded fully.
pub open spec fn decoded_status() -> Seq<char> {
    "decoded_saved_graphics"@
}

/// The status of an element whose saved graphics decoded only in part.
pub open spec fn partial_status() -> Seq<char> {
    "partial_saved_graphics"@
}

/// An element's saved-graphics status, from what decoding its meshes left:
/// fully decoded when there is no decoder diagnostic and no unbounded face,
/// partially otherwise. Branches and faces left out on purpose (by
/// visibility, as non-surfaces, by filter, or with an empty trim) do not
/// count against it.
pub fn saved_element_status(diagnostics: usize, unbounded_faces: usize) -> (r: &'static str)
    ensures
        r@ == (if diagnostics == 0 && unbounded_faces == 0 {
            decoded_status()
        } else {
            partial_status()
        }),
{
    if diagnostics == 0 && unbounded_faces == 0 {
        "decoded_saved_graphics"
    } else {
        "partial_saved_graphics"
    }
}

} // verus!
