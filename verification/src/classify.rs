use crate::availability::AvailabilityInfo;
use crate::chunking_type::ChunkingType;
use crate::context::ChunkingContext;
use crate::graph::{root_chunk, AssetGraph, Chunk, PrimaryResolveResult, ReferenceId};
use crate::node::{ChunkContentContext, ChunkContentEdge, ChunkContentGraphNode, ChunkingError};
use vstd::prelude::*;

verus! {

/// What becomes of one primary result of a chunkable reference.
#[derive(Clone, Copy, Debug, PartialEq, Eq)]
pub enum Placement {
    /// The result becomes an edge of the content graph.
    Edge(ChunkContentEdge),
    /// The result cannot be chunked: the whole reference is passed on as an
    /// external reference.
    External,
    /// The result had to be placed in the current chunk and could not be.
    Refused(ChunkingError),
}

/// The edge by which a reference is passed on untouched.
pub open spec fn external_edge(reference: ReferenceId) -> ChunkContentEdge {
    ChunkContentEdge { key: None, node: ChunkContentGraphNode::ExternalAssetReference(reference) }
}

/// What becomes of one primary result of a reference with the given
/// chunking type.
///
/// A chunk, or the asset that evaluates a chunk group, cannot be chunked. An
/// asset that is already available is
/// absorbed, whatever it is. Any other asset must be chunkable, and is then
/// dealt with as its chunking type asks.
pub open spec fn placement(
    graph: &AssetGraph,
    chunking_context: &ChunkingContext,
    context: ChunkContentContext,
    chunking_type: ChunkingType,
    resolved: PrimaryResolveResult,
) -> Placement {
    match resolved {
        PrimaryResolveResult::Chunk(_) | PrimaryResolveResult::EvaluateChunk(_) =>
            Placement::External,
        PrimaryResolveResult::Asset(asset) => {
            let key = Some((asset, chunking_type));
            let inherited = Chunk {
                asset,
                chunking_context: chunking_context.id,
                availability_info: context.availability_info,
            };
            if graph.is_available(context.availability_info, asset) {
                Placement::Edge(
                    ChunkContentEdge { key, node: ChunkContentGraphNode::AvailableAsset(asset) },
                )
            } else if !graph.is_chunkable(asset) {
                Placement::External
            } else {
                match chunking_type {
                    ChunkingType::Placed => match (graph.item_failure(asset), graph.item_of(asset)) {
                        (Some(failure), _) => Placement::Refused(ChunkingError::Failed { failure }),
                        (None, Some(item)) => Placement::Edge(
                            ChunkContentEdge { key, node: ChunkContentGraphNode::ChunkItem(item) },
                        ),
                        (None, None) => Placement::Refused(ChunkingError::NotPlaceable { asset }),
                    },
                    ChunkingType::Parallel => Placement::Edge(
                        ChunkContentEdge { key, node: ChunkContentGraphNode::Chunk(inherited) },
                    ),
                    ChunkingType::IsolatedParallel => Placement::Edge(
                        ChunkContentEdge {
                            key,
                            node: ChunkContentGraphNode::Chunk(
                                root_chunk(chunking_context.id, asset),
                            ),
                        },
                    ),
                    ChunkingType::PlacedOrParallel => if !context.split
                        && chunking_context.colocates(context.entry, asset) {
                        match (graph.item_failure(asset), graph.item_of(asset)) {
                            (Some(failure), _) => Placement::Refused(
                                ChunkingError::Failed { failure },
                            ),
                            (None, Some(item)) => Placement::Edge(
                                ChunkContentEdge {
                                    key,
                                    node: ChunkContentGraphNode::ChunkItem(item),
                                },
                            ),
                            (None, None) => Placement::Edge(
                                ChunkContentEdge {
                                    key,
                                    node: ChunkContentGraphNode::Chunk(inherited),
                                },
                            ),
                        }
                    } else {
                        Placement::Edge(
                            ChunkContentEdge { key, node: ChunkContentGraphNode::Chunk(inherited) },
                        )
                    },
                    ChunkingType::Separate => Placement::Edge(
                        ChunkContentEdge {
                            key,
                            node: ChunkContentGraphNode::AsyncChunkGroup(inherited),
                        },
                    ),
                    ChunkingType::SeparateAsync => match (
                        graph.loader_failure(asset),
                        graph.loader_of(asset),
                    ) {
                        (Some(failure), _) => Placement::Refused(ChunkingError::Failed { failure }),
                        (None, Some(loader)) => Placement::Edge(
                            ChunkContentEdge { key, node: ChunkContentGraphNode::ChunkItem(loader) },
                        ),
                        (None, None) => Placement::External,
                    },
                }
            }
        },
    }
}

/// Whether `index` is the first primary result that does not become an edge.
pub open spec fn is_first_stop(
    graph: &AssetGraph,
    chunking_context: &ChunkingContext,
    context: ChunkContentContext,
    chunking_type: ChunkingType,
    primary: Seq<PrimaryResolveResult>,
    index: int,
) -> bool {
    &&& 0 <= index < primary.len()
    &&& !(placement(graph, chunking_context, context, chunking_type, primary[index]) is Edge)
    &&& forall|j: int|
        0 <= j < index ==> #[trigger] placement(
            graph,
            chunking_context,
            context,
            chunking_type,
            primary[j],
        ) is Edge
}

/// The edges that one reference contributes to the content graph.
///
/// A reference that reports no chunking type is passed on as an external
/// reference. Otherwise each primary result contributes one edge, in order,
/// unless one of them does not become an edge: then the first such result
/// decides, either for an external reference in place of all edges or for an
/// error.
pub open spec fn reference_edges(
    graph: &AssetGraph,
    chunking_context: &ChunkingContext,
    context: ChunkContentContext,
    reference: ReferenceId,
) -> Result<Seq<ChunkContentEdge>, ChunkingError> {
    match graph.chunking_type_of(reference) {
        None => Ok(seq![external_edge(reference)]),
        Some(chunking_type) => {
            let primary = graph.primary_of(reference);
            if exists|i: int|
                is_first_stop(graph, chunking_context, context, chunking_type, primary, i) {
                let stop = choose|i: int|
                    is_first_stop(graph, chunking_context, context, chunking_type, primary, i);
                match placement(graph, chunking_context, context, chunking_type, primary[stop]) {
                    Placement::Refused(error) => Err(error),
                    _ => Ok(seq![external_edge(reference)]),
                }
            } else {
                Ok(
                    Seq::new(
                        primary.len(),
                        |i: int|
                            placement(
                                graph,
                                chunking_context,
                                context,
                                chunking_type,
                                primary[i],
                            )->Edge_0,
                    ),
                )
            }
        },
    }
}

/// Decides what becomes of one primary result of a reference with the given
/// chunking type.
pub fn place(
    graph: &AssetGraph,
    chunking_context: &ChunkingContext,
    context: ChunkContentContext,
    chunking_type: ChunkingType,
    resolved: PrimaryResolveResult,
) -> (r: Placement)
    ensures
        r == placement(graph, chunking_context, context, chunking_type, resolved),
{
    let asset = match resolved {
        PrimaryResolveResult::Chunk(_) | PrimaryResolveResult::EvaluateChunk(_) => {
            return Placement::External;
        },
        PrimaryResolveResult::Asset(asset) => asset,
    };
    let key = Some((asset, chunking_type));
    if graph.includes(context.availability_info, asset) {
        return Placement::Edge(
            ChunkContentEdge { key, node: ChunkContentGraphNode::AvailableAsset(asset) },
        );
    }
    let chunkable_asset = match graph.chunkable(asset) {
        Some(chunkable_asset) => chunkable_asset,
        None => {
            return Placement::External;
        },
    };
    match chunking_type {
        ChunkingType::Placed => match graph.from_asset(asset) {
            Err(failure) => Placement::Refused(ChunkingError::Failed { failure }),
            Ok(Some(chunk_item)) => Placement::Edge(
                ChunkContentEdge { key, node: ChunkContentGraphNode::ChunkItem(chunk_item) },
            ),
            Ok(None) => Placement::Refused(ChunkingError::NotPlaceable { asset }),
        },
        ChunkingType::Parallel => {
            let chunk = chunkable_asset.as_chunk(chunking_context, context.availability_info);
            Placement::Edge(ChunkContentEdge { key, node: ChunkContentGraphNode::Chunk(chunk) })
        },
        ChunkingType::IsolatedParallel => {
            let chunk = chunkable_asset.as_chunk(
                chunking_context,
                AvailabilityInfo::Root { current_availability_root: asset },
            );
            Placement::Edge(ChunkContentEdge { key, node: ChunkContentGraphNode::Chunk(chunk) })
        },
        ChunkingType::PlacedOrParallel => {
            // heuristic for being in the same chunk
            if !context.split && chunking_context.can_be_in_same_chunk(context.entry, asset) {
                match graph.from_asset(asset) {
                    Err(failure) => {
                        return Placement::Refused(ChunkingError::Failed { failure });
                    },
                    Ok(Some(chunk_item)) => {
                        return Placement::Edge(
                            ChunkContentEdge {
                                key,
                                node: ChunkContentGraphNode::ChunkItem(chunk_item),
                            },
                        );
                    },
                    Ok(None) => {},
                }
            }
            let chunk = chunkable_asset.as_chunk(chunking_context, context.availability_info);
            Placement::Edge(ChunkContentEdge { key, node: ChunkContentGraphNode::Chunk(chunk) })
        },
        ChunkingType::Separate => {
            let entry = chunkable_asset.as_chunk(chunking_context, context.availability_info);
            Placement::Edge(
                ChunkContentEdge { key, node: ChunkContentGraphNode::AsyncChunkGroup(entry) },
            )
        },
        ChunkingType::SeparateAsync => match graph.from_async_asset(chunkable_asset) {
            Err(failure) => Placement::Refused(ChunkingError::Failed { failure }),
            Ok(Some(manifest_loader_item)) => Placement::Edge(
                ChunkContentEdge {
                    key,
                    node: ChunkContentGraphNode::ChunkItem(manifest_loader_item),
                },
            ),
            Ok(None) => Placement::External,
        },
    }
}

/// Whether a computed list of edges, or an error, is the expected one.
pub open spec fn edges_match(
    computed: Result<Vec<ChunkContentEdge>, ChunkingError>,
    expected: Result<Seq<ChunkContentEdge>, ChunkingError>,
) -> bool {
    match computed {
        Ok(edges) => expected == Ok::<Seq<ChunkContentEdge>, ChunkingError>(edges@),
        Err(error) => expected == Err::<Seq<ChunkContentEdge>, ChunkingError>(error),
    }
}

/// The one edge by which a reference is passed on untouched.
fn external(reference: ReferenceId) -> (r: Vec<ChunkContentEdge>)
    ensures
        r@ == seq![external_edge(reference)],
{
    let mut edges: Vec<ChunkContentEdge> = Vec::new();
    edges.push(
        ChunkContentEdge {
            key: None,
            node: ChunkContentGraphNode::ExternalAssetReference(reference),
        },
    );
    assert(edges@ =~= seq![external_edge(reference)]);
    edges
}

/// Classifies one reference: computes the edges that it contributes to the
/// content graph of the chunk described by `context`.
pub fn reference_to_graph_nodes(
    graph: &AssetGraph,
    chunking_context: &ChunkingContext,
    context: ChunkContentContext,
    reference: ReferenceId,
) -> (r: Result<Vec<ChunkContentEdge>, ChunkingError>)
    ensures
        edges_match(r, reference_edges(graph, chunking_context, context, reference)),
{
    let Some(record) = graph.reference(reference) else {
        return Ok(external(reference));
    };
    let Some(chunkable_asset_reference) = record.chunkable else {
        return Ok(external(reference));
    };
    let Some(chunking_type) = chunkable_asset_reference.chunking_type().0 else {
        return Ok(external(reference));
    };
    let ghost primary = graph.primary_of(reference);
    let mut graph_nodes: Vec<ChunkContentEdge> = Vec::new();
    let mut i: usize = 0;
    while i < record.primary.len()
        invariant
            i <= primary.len(),
            primary == record.primary@,
            primary == graph.primary_of(reference),
            graph.chunking_type_of(reference) == Some(chunking_type),
            graph_nodes@.len() == i,
            forall|j: int|
                0 <= j < i ==> #[trigger] placement(
                    graph,
                    chunking_context,
                    context,
                    chunking_type,
                    primary[j],
                ) == Placement::Edge(graph_nodes@[j]),
        decreases primary.len() - i,
    {
        match place(graph, chunking_context, context, chunking_type, record.primary[i]) {
            Placement::Edge(edge) => {
                graph_nodes.push(edge);
            },
            Placement::External => {
                proof {
                    lemma_first_stop_is_unique(
                        graph,
                        chunking_context,
                        context,
                        chunking_type,
                        primary,
                        i as int,
                    );
                }
                return Ok(external(reference));
            },
            Placement::Refused(error) => {
                proof {
                    lemma_first_stop_is_unique(
                        graph,
                        chunking_context,
                        context,
                        chunking_type,
                        primary,
                        i as int,
                    );
                }
                return Err(error);
            },
        }
        i += 1;
    }
    proof {
        assert forall|k: int| !is_first_stop(
            graph,
            chunking_context,
            context,
            chunking_type,
            primary,
            k,
        ) by {
            if 0 <= k < primary.len() {
                assert(placement(graph, chunking_context, context, chunking_type, primary[k])
                    is Edge);
            }
        }
        assert(graph_nodes@ =~= Seq::new(
            primary.len(),
            |i: int|
                placement(graph, chunking_context, context, chunking_type, primary[i])->Edge_0,
        ));
    }
    Ok(graph_nodes)
}

/// There is at most one first stop, so the one that is chosen is the one
/// that was found.
pub proof fn lemma_first_stop_is_unique(
    graph: &AssetGraph,
    chunking_context: &ChunkingContext,
    context: ChunkContentContext,
    chunking_type: ChunkingType,
    primary: Seq<PrimaryResolveResult>,
    index: int,
)
    requires
        is_first_stop(graph, chunking_context, context, chunking_type, primary, index),
    ensures
        index == choose|i: int|
            is_first_stop(graph, chunking_context, context, chunking_type, primary, i),
{
    let chosen = choose|i: int|
        is_first_stop(graph, chunking_context, context, chunking_type, primary, i);
    assert(is_first_stop(graph, chunking_context, context, chunking_type, primary, chosen));
    if chosen < index {
        assert(placement(graph, chunking_context, context, chunking_type, primary[chosen])
            is Edge);
    }
    if index < chosen {
        assert(placement(graph, chunking_context, context, chunking_type, primary[index])
            is Edge);
    }
}

} // verus!
