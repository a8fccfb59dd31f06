use crate::availability::{AssetId, AvailabilityInfo};
use crate::chunking_type::ChunkingType;
use crate::context::ChunkingContext;
use crate::graph::{AssetGraph, Chunk, ChunkItemId, ReferenceId};
use crate::group::{group_of_chunk, ChunkGroup, ChunkGroupView, EvaluatableAssets};
use crate::node::{ChunkContentContext, ChunkContentEdge, ChunkContentGraphNode, ChunkingError};
use crate::laws::{lemma_split_walk_is_not_given_up, lemma_unsplit_content_is_bounded};
use crate::visit::{ChunkContentVisit, ProcessedFlags, MAX_CHUNK_ITEMS_COUNT};
use crate::walk::{run, start, traverse, GraphTraversalResult, Walk, WalkStatus};
use vstd::prelude::*;

verus! {

/// The content of one chunk.
#[derive(Debug, PartialEq, Eq)]
pub struct ChunkContentResult {
    /// The chunk items of the chunk, each after the chunk items that it
    /// refers to.
    pub chunk_items: Vec<ChunkItemId>,
    /// The chunks that are loaded in parallel to the chunk.
    pub chunks: Vec<Chunk>,
    /// The chunk groups that the chunk refers to without loading them:
    /// each starts at the chunk of an asset, for the context of that chunk.
    pub async_chunk_groups: Vec<ChunkGroup>,
    /// The references that are passed on untouched.
    pub external_asset_references: Vec<ReferenceId>,
    /// What was available when the content was computed.
    pub availability_info: AvailabilityInfo,
}

/// The content of one chunk as a value.
pub struct ChunkContent {
    pub chunk_items: Seq<ChunkItemId>,
    pub chunks: Seq<Chunk>,
    pub async_chunk_groups: Seq<ChunkGroupView>,
    pub external_asset_references: Seq<ReferenceId>,
    pub availability_info: AvailabilityInfo,
}

impl View for ChunkContentResult {
    type V = ChunkContent;

    open spec fn view(&self) -> ChunkContent {
        ChunkContent {
            chunk_items: self.chunk_items@,
            chunks: self.chunks@,
            async_chunk_groups: Seq::new(
                self.async_chunk_groups@.len(),
                |i: int| self.async_chunk_groups@[i]@,
            ),
            external_asset_references: self.external_asset_references@,
            availability_info: self.availability_info,
        }
    }
}

/// The chunk items among the nodes of a list of edges, in their order.
pub open spec fn chunk_items_of(edges: Seq<ChunkContentEdge>) -> Seq<ChunkItemId>
    decreases edges.len(),
{
    if edges.len() == 0 {
        Seq::empty()
    } else {
        match edges.last().node {
            ChunkContentGraphNode::ChunkItem(item) => chunk_items_of(edges.drop_last()).push(item),
            _ => chunk_items_of(edges.drop_last()),
        }
    }
}

/// The parallel chunks among the nodes of a list of edges, in their order.
pub open spec fn chunks_of(edges: Seq<ChunkContentEdge>) -> Seq<Chunk>
    decreases edges.len(),
{
    if edges.len() == 0 {
        Seq::empty()
    } else {
        match edges.last().node {
            ChunkContentGraphNode::Chunk(chunk) => chunks_of(edges.drop_last()).push(chunk),
            _ => chunks_of(edges.drop_last()),
        }
    }
}

/// The chunk groups among the nodes of a list of edges, in their order.
pub open spec fn async_chunk_groups_of(edges: Seq<ChunkContentEdge>) -> Seq<ChunkGroupView>
    decreases edges.len(),
{
    if edges.len() == 0 {
        Seq::empty()
    } else {
        match edges.last().node {
            ChunkContentGraphNode::AsyncChunkGroup(entry) => async_chunk_groups_of(
                edges.drop_last(),
            ).push(group_of_chunk(entry.chunking_context, entry)),
            _ => async_chunk_groups_of(edges.drop_last()),
        }
    }
}

/// The external references among the nodes of a list of edges, in their
/// order.
pub open spec fn external_asset_references_of(edges: Seq<ChunkContentEdge>) -> Seq<ReferenceId>
    decreases edges.len(),
{
    if edges.len() == 0 {
        Seq::empty()
    } else {
        match edges.last().node {
            ChunkContentGraphNode::ExternalAssetReference(reference) =>
                external_asset_references_of(edges.drop_last()).push(reference),
            _ => external_asset_references_of(edges.drop_last()),
        }
    }
}

/// The content that the edges of a completed walk make up: each node in the
/// list of its kind, and available assets in none.
pub open spec fn assembled(
    edges: Seq<ChunkContentEdge>,
    availability_info: AvailabilityInfo,
) -> ChunkContent {
    ChunkContent {
        chunk_items: chunk_items_of(edges),
        chunks: chunks_of(edges),
        async_chunk_groups: async_chunk_groups_of(edges),
        external_asset_references: external_asset_references_of(edges),
        availability_info,
    }
}

/// Sorts the nodes that a completed walk handed out into the content of the
/// chunk.
pub fn assemble(edges: &Vec<ChunkContentEdge>, availability_info: AvailabilityInfo) -> (r:
    ChunkContentResult)
    ensures
        r@ == assembled(edges@, availability_info),
{
    let mut chunk_items: Vec<ChunkItemId> = Vec::new();
    let mut chunks: Vec<Chunk> = Vec::new();
    let mut async_chunk_groups: Vec<ChunkGroup> = Vec::new();
    let mut external_asset_references: Vec<ReferenceId> = Vec::new();
    let mut i: usize = 0;
    while i < edges.len()
        invariant
            i <= edges@.len(),
            chunk_items@ == chunk_items_of(edges@.take(i as int)),
            chunks@ == chunks_of(edges@.take(i as int)),
            Seq::new(async_chunk_groups@.len(), |k: int| async_chunk_groups@[k]@)
                == async_chunk_groups_of(edges@.take(i as int)),
            external_asset_references@ == external_asset_references_of(edges@.take(i as int)),
        decreases edges@.len() - i,
    {
        proof {
            assert(edges@.take(i + 1).drop_last() =~= edges@.take(i as int));
            assert(edges@.take(i + 1).last() == edges@[i as int]);
        }
        let ghost groups_before = Seq::new(
            async_chunk_groups@.len(),
            |k: int| async_chunk_groups@[k]@,
        );
        match edges[i].node {
            ChunkContentGraphNode::AvailableAsset(_asset) => {},
            ChunkContentGraphNode::ChunkItem(chunk_item) => {
                chunk_items.push(chunk_item);
            },
            ChunkContentGraphNode::Chunk(chunk) => {
                chunks.push(chunk);
            },
            ChunkContentGraphNode::AsyncChunkGroup(entry) => {
                async_chunk_groups.push(
                    ChunkGroup {
                        chunking_context: entry.chunking_context,
                        entry,
                        evaluatable_assets: EvaluatableAssets::empty(),
                    },
                );
                assert(Seq::new(async_chunk_groups@.len(), |k: int| async_chunk_groups@[k]@)
                    =~= groups_before.push(group_of_chunk(entry.chunking_context, entry)));
            },
            ChunkContentGraphNode::ExternalAssetReference(reference) => {
                external_asset_references.push(reference);
            },
        }
        i += 1;
    }
    assert(edges@.take(edges@.len() as int) =~= edges@);
    ChunkContentResult {
        chunk_items,
        chunks,
        async_chunk_groups,
        external_asset_references,
        availability_info,
    }
}

/// The edge by which a walk enters at an entry: the chunk item of the entry,
/// placed.
pub open spec fn root_edge(graph: &AssetGraph, entry: AssetId) -> ChunkContentEdge {
    ChunkContentEdge {
        key: Some((entry, ChunkingType::Placed)),
        node: ChunkContentGraphNode::ChunkItem(graph.item_of(entry)->0),
    }
}

/// The entries of a chunk: the entry, then the additional entries.
pub open spec fn all_entries(entry: AssetId, additional_entries: Option<Vec<AssetId>>) -> Seq<
    AssetId,
> {
    match additional_entries {
        Some(entries) => seq![entry] + entries@,
        None => seq![entry],
    }
}

/// The edges by which a walk enters at the given entries.
pub open spec fn root_edges(graph: &AssetGraph, entries: Seq<AssetId>) -> Seq<ChunkContentEdge> {
    Seq::new(entries.len(), |i: int| root_edge(graph, entries[i]))
}

/// Whether the chunk kind has a chunk item for each of the entries.
pub open spec fn entries_have_items(graph: &AssetGraph, entries: Seq<AssetId>) -> bool {
    forall|i: int| 0 <= i < entries.len() ==> (#[trigger] graph.item_of(entries[i])) is Some
}

/// The record of keys of a walk that has not passed any edge.
pub open spec fn nothing_processed(graph: &AssetGraph) -> Seq<ProcessedFlags> {
    Seq::new(graph.assets@.len(), |i: int| ProcessedFlags::none())
}

/// The state in which the walk over the content of a chunk ends.
pub open spec fn content_walk(
    graph: &AssetGraph,
    chunking_context: &ChunkingContext,
    context: ChunkContentContext,
    entries: Seq<AssetId>,
) -> Walk {
    run(
        graph,
        chunking_context,
        context,
        start(root_edges(graph, entries), nothing_processed(graph), 0),
    )
}

/// The content of the chunk with the given entries: what the walk from the
/// entries hands out, sorted by kind; nothing, where the walk is given up;
/// the error, where it meets one.
pub open spec fn chunk_content_of(
    graph: &AssetGraph,
    chunking_context: &ChunkingContext,
    context: ChunkContentContext,
    entries: Seq<AssetId>,
) -> Result<Option<ChunkContent>, ChunkingError> {
    let end = content_walk(graph, chunking_context, context, entries);
    match end.status {
        WalkStatus::Running => Ok(Some(assembled(end.emitted, context.availability_info))),
        WalkStatus::Aborted => Ok(None),
        WalkStatus::Failed(error) => Err(error),
    }
}

/// Whether a computed content is the expected one.
pub open spec fn content_matches(
    computed: Result<Option<ChunkContentResult>, ChunkingError>,
    expected: Result<Option<ChunkContent>, ChunkingError>,
) -> bool {
    match computed {
        Ok(Some(content)) => expected == Ok::<Option<ChunkContent>, ChunkingError>(
            Some(content@),
        ),
        Ok(None) => expected == Ok::<Option<ChunkContent>, ChunkingError>(None),
        Err(error) => expected == Err::<Option<ChunkContent>, ChunkingError>(error),
    }
}

/// Computes the content of the chunk of `entry`, which is not split: at
/// most `MAX_CHUNK_ITEMS_COUNT - 1` chunk items go into it. Returns nothing
/// when the chunk would grow beyond that; the caller then computes the
/// content with [`chunk_content_split`].
pub fn chunk_content(
    graph: &AssetGraph,
    chunking_context: &ChunkingContext,
    entry: AssetId,
    additional_entries: Option<Vec<AssetId>>,
    availability_info: AvailabilityInfo,
) -> (r: Result<Option<ChunkContentResult>, ChunkingError>)
    requires
        graph.is_well_formed(),
        entries_have_items(graph, all_entries(entry, additional_entries)),
    ensures
        content_matches(
            r,
            chunk_content_of(
                graph,
                chunking_context,
                ChunkContentContext { entry, availability_info, split: false },
                all_entries(entry, additional_entries),
            ),
        ),
        r matches Ok(Some(content)) ==> content.chunk_items@.len() < MAX_CHUNK_ITEMS_COUNT,
{
    proof {
        lemma_unsplit_content_is_bounded(
            graph,
            chunking_context,
            ChunkContentContext { entry, availability_info, split: false },
            all_entries(entry, additional_entries),
        );
    }
    chunk_content_internal_parallel(
        graph,
        chunking_context,
        entry,
        additional_entries,
        availability_info,
        false,
    )
}

/// Computes the content of the chunk of `entry`, which is split: no bound
/// limits the number of its chunk items, and an asset that could be placed
/// or loaded in parallel is always loaded in parallel. There is always a
/// content, unless an error is met.
pub fn chunk_content_split(
    graph: &AssetGraph,
    chunking_context: &ChunkingContext,
    entry: AssetId,
    additional_entries: Option<Vec<AssetId>>,
    availability_info: AvailabilityInfo,
) -> (r: Result<ChunkContentResult, ChunkingError>)
    requires
        graph.is_well_formed(),
        entries_have_items(graph, all_entries(entry, additional_entries)),
    ensures
        match r {
            Ok(content) => chunk_content_of(
                graph,
                chunking_context,
                ChunkContentContext { entry, availability_info, split: true },
                all_entries(entry, additional_entries),
            ) == Ok::<Option<ChunkContent>, ChunkingError>(Some(content@)),
            Err(error) => chunk_content_of(
                graph,
                chunking_context,
                ChunkContentContext { entry, availability_info, split: true },
                all_entries(entry, additional_entries),
            ) == Err::<Option<ChunkContent>, ChunkingError>(error),
        },
{
    proof {
        lemma_split_walk_is_not_given_up(
            graph,
            chunking_context,
            ChunkContentContext { entry, availability_info, split: true },
            start(
                root_edges(graph, all_entries(entry, additional_entries)),
                nothing_processed(graph),
                0,
            ),
        );
    }
    match chunk_content_internal_parallel(
        graph,
        chunking_context,
        entry,
        additional_entries,
        availability_info,
        true,
    ) {
        Ok(content) => Ok(content.unwrap()),
        Err(error) => Err(error),
    }
}

/// Computes the content of the chunk of `entry` and the additional entries,
/// starting from the chunk items of the entries.
pub fn chunk_content_internal_parallel(
    graph: &AssetGraph,
    chunking_context: &ChunkingContext,
    entry: AssetId,
    additional_entries: Option<Vec<AssetId>>,
    availability_info: AvailabilityInfo,
    split: bool,
) -> (r: Result<Option<ChunkContentResult>, ChunkingError>)
    requires
        graph.is_well_formed(),
        entries_have_items(graph, all_entries(entry, additional_entries)),
    ensures
        content_matches(
            r,
            chunk_content_of(
                graph,
                chunking_context,
                ChunkContentContext { entry, availability_info, split },
                all_entries(entry, additional_entries),
            ),
        ),
{
    let ghost entries = all_entries(entry, additional_entries);
    let mut edges: Vec<ChunkContentEdge> = Vec::new();
    assert(entries[0] == entry);
    edges.push(root(graph, entry));
    if let Some(additional) = &additional_entries {
        let mut i: usize = 0;
        while i < additional.len()
            invariant
                i <= additional@.len(),
                entries == seq![entry] + additional@,
                entries_have_items(graph, entries),
                edges@ == root_edges(graph, entries.take(i + 1)),
            decreases additional@.len() - i,
        {
            assert(entries[i + 1] == additional@[i as int]);
            edges.push(root(graph, additional[i]));
            i += 1;
            assert(edges@ =~= root_edges(graph, entries.take(i + 1)));
        }
        assert(entries.take(additional@.len() as int + 1) =~= entries);
    } else {
        assert(edges@ =~= root_edges(graph, entries));
    }
    let context = ChunkContentContext { entry, availability_info, split };
    let visit = ChunkContentVisit::new(context, graph.assets.len());
    match traverse(graph, chunking_context, edges, visit) {
        GraphTraversalResult::Aborted => Ok(None),
        GraphTraversalResult::Completed(Err(error)) => Err(error),
        GraphTraversalResult::Completed(Ok(graph_nodes)) => Ok(
            Some(assemble(&graph_nodes, availability_info)),
        ),
    }
}

/// The root edge of an entry.
fn root(graph: &AssetGraph, entry: AssetId) -> (r: ChunkContentEdge)
    requires
        graph.item_of(entry) is Some,
    ensures
        r == root_edge(graph, entry),
{
    let chunk_item = match graph.asset(entry) {
        Some(asset) => asset.items.chunk_item,
        None => None,
    };
    ChunkContentEdge {
        key: Some((entry, ChunkingType::Placed)),
        node: ChunkContentGraphNode::ChunkItem(chunk_item.unwrap()),
    }
}

} // verus!
