//! The inflated `Partitions/*` streams of a model, as the scans take them.

use vstd::prelude::*;

verus! {

/// One inflated `Partitions/*` stream.
pub struct InflatedPartition {
    /// The stream's name, e.g. `"Partitions/46"`.
    pub stream: String,
    /// The stream's bytes after inflation.
    pub bytes: Vec<u8>,
}

/// The stream names and bytes of a list of partitions.
pub open spec fn partition_views(parts: Seq<InflatedPartition>) -> Seq<(Seq<char>, Seq<u8>)> {
    parts.map_values(|p: InflatedPartition| (p.stream@, p.bytes@))
}

} // verus!
