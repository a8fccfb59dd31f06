use crate::availability::{AssetId, AvailabilityInfo};
use crate::chunking_type::ChunkingType;
use crate::graph::{Chunk, ChunkItemId, FailureId, ReferenceId};
use vstd::prelude::*;

verus! {

/// A node of the content graph of one chunk.
#[derive(Clone, Copy, Debug, PartialEq, Eq, Hash, Structural)]
pub enum ChunkContentGraphNode {
    /// A chunk item that is placed into the current chunk.
    ChunkItem(ChunkItemId),
    /// An asset that is already available and need not be included.
    AvailableAsset(AssetId),
    /// A chunk that is loaded in parallel to the current chunk.
    Chunk(Chunk),
    /// A chunk group that is referenced from the current chunk but not
    /// loaded with it, named by its entry chunk.
    AsyncChunkGroup(Chunk),
    /// A reference that the chunking passes on untouched.
    ExternalAssetReference(ReferenceId),
}

/// An edge of the content graph: the node it leads to, and the key under
/// which the walk remembers that it has been there. An edge without a key
/// is never taken for a duplicate.
#[derive(Clone, Copy, Debug, PartialEq, Eq, Hash)]
pub struct ChunkContentEdge {
    pub key: Option<(AssetId, ChunkingType)>,
    pub node: ChunkContentGraphNode,
}

/// What stays the same during the walk over the content of one chunk.
#[derive(Clone, Copy, Debug, PartialEq, Eq, Hash, Structural)]
pub struct ChunkContentContext {
    /// The asset that the chunk is made for.
    pub entry: AssetId,
    /// What is available when the chunk is loaded.
    pub availability_info: AvailabilityInfo,
    /// Whether the content is being split: then no bound limits the number
    /// of chunk items, and the heuristic placement always opts for a chunk
    /// of its own.
    pub split: bool,
}

/// Why the content of a chunk could not be computed.
#[derive(Clone, Copy, Debug, PartialEq, Eq, Hash, Structural)]
pub enum ChunkingError {
    /// The asset was requested to be placed in the same chunk, but the chunk
    /// kind has no chunk item for it.
    NotPlaceable { asset: AssetId },
    /// A capability of the build failed when the walk asked for its answer.
    Failed { failure: FailureId },
}

} // verus!
