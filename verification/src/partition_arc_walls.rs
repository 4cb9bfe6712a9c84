//! ArcWall records recovered from partition streams, and the index from
//! their validated trailer ElementIds to where each record sits.

use vstd::prelude::*;
use std::collections::BTreeMap;

verus! {

broadcast use vstd::std_specs::btree::group_btree_axioms;

/// Stable reference to a decoded ArcWall record inside a partition stream.
#[derive(Debug, Clone, PartialEq, Eq)]
pub struct PartitionArcWallRef {
    /// Stream name, e.g. `"Partitions/5"`.
    pub partition: String,
    /// Byte offset of the ArcWall tag inside the inflated stream.
    pub offset: usize,
}

/// The ids a validated ArcWall singleton trailer carries.
#[derive(Debug, Clone, Copy, PartialEq, Eq)]
pub struct ArcWallTrailer {
    /// The ElementId, when its two slots agree.
    pub element_id: Option<u32>,
    /// The shared type-symbol candidate at `+0xfe`.
    pub type_id: Option<u32>,
}

/// One standard ArcWall recovered from a partition stream, with its trailer
/// when the singleton trailer region is present and validates.
#[derive(Debug, Clone)]
pub struct PartitionArcWall {
    pub partition: String,
    pub offset: usize,
    pub trailer: Option<ArcWallTrailer>,
}

/// A reference as values.
pub struct ArcWallRefView {
    pub partition: Seq<char>,
    pub offset: int,
}

impl View for PartitionArcWallRef {
    type V = ArcWallRefView;

    open spec fn view(&self) -> ArcWallRefView {
        ArcWallRefView { partition: self.partition@, offset: self.offset as int }
    }
}

/// The ElementId a wall's trailer validated, if any.
pub open spec fn wall_element_id(w: PartitionArcWall) -> Option<u32> {
    match w.trailer {
        Some(t) => t.element_id,
        None => None,
    }
}

/// Where a wall sits, as values.
pub open spec fn wall_ref(w: PartitionArcWall) -> ArcWallRefView {
    ArcWallRefView { partition: w.partition@, offset: w.offset as int }
}

impl PartitionArcWall {
    /// ElemTable-linkable ElementId when the trailer validated.
    pub fn element_id(&self) -> (r: Option<u32>)
        ensures
            r == wall_element_id(*self),
    {
        match &self.trailer {
            Some(t) => t.element_id,
            None => None,
        }
    }

    /// Shared type-symbol candidate from the trailer (`+0xfe`).
    pub fn type_id(&self) -> (r: Option<u32>)
        ensures
            r == match self.trailer {
                Some(t) => t.type_id,
                None => None,
            },
    {
        match &self.trailer {
            Some(t) => t.type_id,
            None => None,
        }
    }

    /// Where this wall sits.
    pub fn partition_ref(&self) -> (r: PartitionArcWallRef)
        ensures
            r@ == wall_ref(*self),
    {
        PartitionArcWallRef { partition: self.partition.clone(), offset: self.offset }
    }
}

/// Whether `i` is the first wall whose trailer validated `id`.
pub open spec fn first_with_id(walls: Seq<PartitionArcWall>, id: u32, i: int) -> bool {
    0 <= i < walls.len() && wall_element_id(walls[i]) == Some(id) && forall|j: int|
        0 <= j < i ==> wall_element_id(#[trigger] walls[j]) != Some(id)
}

/// ElementId to partition-record index of decoded ArcWalls. Only walls whose
/// trailer ElementId validated are indexed; an ElementId met twice keeps its
/// first wall.
pub fn element_id_partition_index(walls: &[PartitionArcWall]) -> (r: BTreeMap<
    u32,
    PartitionArcWallRef,
>)
    ensures
        forall|id: u32| #[trigger]
            r@.contains_key(id) <==> exists|i: int|
                0 <= i < walls@.len() && wall_element_id(#[trigger] walls@[i]) == Some(id),
        forall|id: u32, i: int|
            r@.contains_key(id) && #[trigger] first_with_id(walls@, id, i) ==> r@[id]@ == wall_ref(
                walls@[i],
            ),
{
    let mut map: BTreeMap<u32, PartitionArcWallRef> = BTreeMap::new();
    let mut k: usize = 0;
    while k < walls.len()
        invariant
            k <= walls@.len(),
            forall|id: u32| #[trigger]
                map@.contains_key(id) <==> exists|i: int|
                    0 <= i < k && wall_element_id(#[trigger] walls@[i]) == Some(id),
            forall|id: u32, i: int|
                map@.contains_key(id) && #[trigger] first_with_id(walls@, id, i) ==> i < k
                    && map@[id]@ == wall_ref(walls@[i]),
        decreases walls@.len() - k,
    {
        let wall = &walls[k];
        match wall.element_id() {
            Some(id) => {
                if !map.contains_key(&id) {
                    map.insert(id, wall.partition_ref());
                    proof {
                        assert forall|i: int| #[trigger] first_with_id(walls@, id, i) implies i == k by {
                            if i < k {
                            } else if i > k {
                                assert(wall_element_id(walls@[k as int]) == Some(id));
                            }
                        }
                    }
                }
            },
            None => {},
        }
        proof {
            assert forall|x: u32, i: int|
                map@.contains_key(x) && #[trigger] first_with_id(walls@, x, i) implies i < k + 1
                && map@[x]@ == wall_ref(walls@[i]) by {
                if i > k {
                    assert(wall_element_id(walls@[k as int]) != Some(x) || map@.contains_key(x));
                }
            }
        }
        k += 1;
    }
    map
}

} // verus!
