//! The chunking core under one name: what a caller needs to compute the
//! content of a chunk and the chunks of a chunk group.

pub use crate::availability::{AssetId, AvailabilityInfo, AvailableAssets, AvailableAssetsId};
pub use crate::chunk_graph::{get_chunk_children, reference_to_chunks};
pub use crate::chunking_type::{ChunkingType, ChunkingTypeOption};
pub use crate::classify::{place, reference_to_graph_nodes, Placement};
pub use crate::content::{
    chunk_content, chunk_content_internal_parallel, chunk_content_split, ChunkContentResult,
};
pub use crate::context::{ChunkingContext, ChunkingContextId};
pub use crate::graph::{
    Asset, AssetGraph, AssetReference, Chunk, ChunkItem, ChunkItemId, ChunkRecord,
    ChunkableAsset, ChunkableAssetReference, FailureId, FromChunkableAsset,
    ParallelChunkReference, PrimaryResolveResult, ReferenceId,
};
pub use crate::group::{
    ChunkGroup, Chunks, EvaluatableAssets, EvaluateChunk, GroupAssets,
};
pub use crate::module_id::{ModuleId, ModuleIds};
pub use crate::node::{
    ChunkContentContext, ChunkContentEdge, ChunkContentGraphNode, ChunkingError,
};
pub use crate::reference::{ChunkGroupReference, ChunkItems, ChunkReference};
pub use crate::visit::{ChunkContentVisit, VisitControlFlow, MAX_CHUNK_ITEMS_COUNT};
pub use crate::walk::{traverse, GraphTraversalResult};
