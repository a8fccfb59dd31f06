use crate::availability::AssetId;
use crate::chunking_type::ChunkingType;
use crate::classify::{is_first_stop, placement, reference_edges, Placement};
use crate::content::{
    async_chunk_groups_of, chunk_content_of, chunk_items_of, chunks_of, content_matches,
    content_walk, entries_have_items, nothing_processed, root_edge, root_edges, ChunkContent,
    ChunkContentResult,
};
use crate::context::ChunkingContext;
use crate::graph::{root_chunk, AssetGraph, PrimaryResolveResult, ReferenceId};
use crate::node::{ChunkContentContext, ChunkContentEdge, ChunkContentGraphNode, ChunkingError};
use crate::visit::{
    is_fresh, is_processed, node_edges, processed_after, references_edges,
    ProcessedFlags, MAX_CHUNK_ITEMS_COUNT,
};
use crate::walk::{
    base_of, decided_edge, expands, followed_edge, frame_edge, has_work, leaves_reserve,
    left_place, lemma_run_keeps, lemma_run_leaves_no_work, lemma_step_shape, pending,
    reserved_edge, run, start, step, Frame, Walk,
};
use vstd::prelude::*;

verus! {

/// The walk over a chunk that is being split is never given up.
pub proof fn lemma_split_walk_is_not_given_up(
    graph: &AssetGraph,
    chunking_context: &ChunkingContext,
    context: ChunkContentContext,
    walk: Walk,
)
    requires
        context.split,
        !(walk.status is Aborted),
    ensures
        !(run(graph, chunking_context, context, walk).status is Aborted),
{
    let kept = |w: Walk| !(w.status is Aborted);
    lemma_run_keeps(graph, chunking_context, context, walk, kept);
}

/// Whether an edge is one that the walk from the given entries can meet: an
/// external reference without a key, what the classifier makes of the key
/// of the edge, or the root edge of an entry.
pub open spec fn is_sound_edge(
    graph: &AssetGraph,
    chunking_context: &ChunkingContext,
    context: ChunkContentContext,
    entries: Seq<AssetId>,
    edge: ChunkContentEdge,
) -> bool {
    match edge.key {
        None => edge.node is ExternalAssetReference,
        Some((asset, chunking_type)) => graph.has_asset(asset) && (placement(
            graph,
            chunking_context,
            context,
            chunking_type,
            PrimaryResolveResult::Asset(asset),
        ) == Placement::Edge(edge) || (entries.contains(asset) && edge == root_edge(
            graph,
            asset,
        ))),
    }
}

/// Where no primary result stops the classifier, each of them becomes an
/// edge.
proof fn lemma_no_stop_means_all_edges(
    graph: &AssetGraph,
    chunking_context: &ChunkingContext,
    context: ChunkContentContext,
    chunking_type: ChunkingType,
    primary: Seq<PrimaryResolveResult>,
    upto: int,
)
    requires
        0 <= upto <= primary.len(),
        forall|i: int|
            !is_first_stop(graph, chunking_context, context, chunking_type, primary, i),
    ensures
        forall|k: int|
            0 <= k < upto ==> #[trigger] placement(
                graph,
                chunking_context,
                context,
                chunking_type,
                primary[k],
            ) is Edge,
    decreases upto,
{
    if upto > 0 {
        lemma_no_stop_means_all_edges(
            graph,
            chunking_context,
            context,
            chunking_type,
            primary,
            upto - 1,
        );
        assert(!is_first_stop(
            graph,
            chunking_context,
            context,
            chunking_type,
            primary,
            upto - 1,
        ));
    }
}

/// Every edge that the classifier makes of a reference is sound.
pub proof fn lemma_reference_edges_are_sound(
    graph: &AssetGraph,
    chunking_context: &ChunkingContext,
    context: ChunkContentContext,
    entries: Seq<AssetId>,
    reference: ReferenceId,
)
    requires
        graph.is_well_formed(),
    ensures
        match reference_edges(graph, chunking_context, context, reference) {
            Ok(edges) => forall|j: int|
                0 <= j < edges.len() ==> is_sound_edge(
                    graph,
                    chunking_context,
                    context,
                    entries,
                    #[trigger] edges[j],
                ),
            Err(_) => true,
        },
{
    match graph.chunking_type_of(reference) {
        None => {},
        Some(chunking_type) => {
            let primary = graph.primary_of(reference);
            if exists|i: int|
                is_first_stop(graph, chunking_context, context, chunking_type, primary, i) {
            } else {
                lemma_no_stop_means_all_edges(
                    graph,
                    chunking_context,
                    context,
                    chunking_type,
                    primary,
                    primary.len() as int,
                );
                let edges = reference_edges(graph, chunking_context, context, reference)->Ok_0;
                assert forall|j: int| 0 <= j < edges.len() implies is_sound_edge(
                    graph,
                    chunking_context,
                    context,
                    entries,
                    #[trigger] edges[j],
                ) by {
                    assert(placement(
                        graph,
                        chunking_context,
                        context,
                        chunking_type,
                        primary[j],
                    ) is Edge);
                    assert(graph.resolves_inside(reference as int));
                    assert(graph.references@[reference as int].primary@[j] == primary[j]);
                }
            }
        },
    }
}

/// Every edge that leaves a chunk item with the given references is sound.
pub proof fn lemma_references_edges_are_sound(
    graph: &AssetGraph,
    chunking_context: &ChunkingContext,
    context: ChunkContentContext,
    entries: Seq<AssetId>,
    references: Seq<ReferenceId>,
)
    requires
        graph.is_well_formed(),
    ensures
        match references_edges(graph, chunking_context, context, references) {
            Ok(edges) => forall|j: int|
                0 <= j < edges.len() ==> is_sound_edge(
                    graph,
                    chunking_context,
                    context,
                    entries,
                    #[trigger] edges[j],
                ),
            Err(_) => true,
        },
    decreases references.len(),
{
    if references.len() > 0 {
        lemma_references_edges_are_sound(
            graph,
            chunking_context,
            context,
            entries,
            references.drop_last(),
        );
        lemma_reference_edges_are_sound(
            graph,
            chunking_context,
            context,
            entries,
            references.last(),
        );
    }
}

/// Whether every edge that a walk over a well-formed graph holds is sound,
/// its record of keys is one for the assets of the graph, and what it has
/// reserved or put off are chunk items.
pub open spec fn is_sound_walk(
    graph: &AssetGraph,
    chunking_context: &ChunkingContext,
    context: ChunkContentContext,
    entries: Seq<AssetId>,
    walk: Walk,
) -> bool {
    &&& graph.is_well_formed()
    &&& walk.processed.len() == graph.assets@.len()
    &&& forall|i: int|
        0 <= i < walk.roots.len() ==> is_sound_edge(
            graph,
            chunking_context,
            context,
            entries,
            #[trigger] walk.roots[i],
        )
    &&& forall|i: int|
        0 <= i < walk.reserved.len() ==> (#[trigger] walk.reserved[i]).node is ChunkItem
            && is_sound_edge(graph, chunking_context, context, entries, walk.reserved[i])
    &&& forall|i: int|
        0 <= i < walk.stack.len() ==> is_sound_edge(
            graph,
            chunking_context,
            context,
            entries,
            frame_edge(#[trigger] walk.stack[i]),
        ) && (walk.stack[i] is Emit ==> frame_edge(walk.stack[i]).node is ChunkItem)
    &&& forall|i: int|
        0 <= i < walk.emitted.len() ==> is_sound_edge(
            graph,
            chunking_context,
            context,
            entries,
            #[trigger] walk.emitted[i],
        )
}

/// What a step does to the reserve, place by place.
pub proof fn lemma_step_shapes_reserve(
    graph: &AssetGraph,
    chunking_context: &ChunkingContext,
    context: ChunkContentContext,
    walk: Walk,
)
    requires
        walk.status is Running,
        has_work(walk),
    ensures
        ({
            let next = step(graph, chunking_context, context, walk);
            let place = left_place(walk);
            &&& leaves_reserve(context, walk) ==> {
                &&& 0 <= place < walk.reserved.len()
                &&& next.reserved.len() == walk.reserved.len() - 1
                &&& followed_edge(context, walk) == Some(walk.reserved[place])
                &&& forall|i: int|
                    0 <= i < next.reserved.len() ==> #[trigger] next.reserved[i] == if i < place {
                        walk.reserved[i]
                    } else {
                        walk.reserved[i + 1]
                    }
            }
            &&& !leaves_reserve(context, walk) ==> {
                &&& next.reserved.len() >= walk.reserved.len()
                &&& next.reserved.len() <= walk.reserved.len() + 1
                &&& forall|i: int|
                    0 <= i < walk.reserved.len() ==> #[trigger] next.reserved[i]
                        == walk.reserved[i]
                &&& next.reserved.len() > walk.reserved.len() ==> reserved_edge(context, walk)
                    == Some(next.reserved[walk.reserved.len() as int]) && walk.roots.len() > 0
                    && next.reserved[walk.reserved.len() as int] == walk.roots[0] && expands(
                    walk.processed,
                    walk.roots[0],
                )
            }
        }),
{
    lemma_step_shape(graph, chunking_context, context, walk);
}

/// A step of a sound walk leads to a sound walk.
pub proof fn lemma_step_keeps_sound(
    graph: &AssetGraph,
    chunking_context: &ChunkingContext,
    context: ChunkContentContext,
    entries: Seq<AssetId>,
    walk: Walk,
)
    requires
        is_sound_walk(graph, chunking_context, context, entries, walk),
        walk.status is Running,
        has_work(walk),
    ensures
        is_sound_walk(
            graph,
            chunking_context,
            context,
            entries,
            step(graph, chunking_context, context, walk),
        ),
{
    let next = step(graph, chunking_context, context, walk);
    let base = base_of(walk);
    lemma_step_shape(graph, chunking_context, context, walk);
    lemma_step_shapes_reserve(graph, chunking_context, context, walk);
    if walk.stack.len() > 0 {
        assert(is_sound_edge(
            graph,
            chunking_context,
            context,
            entries,
            frame_edge(walk.stack[walk.stack.len() - 1]),
        ));
    }
    assert forall|i: int| 0 <= i < next.roots.len() implies is_sound_edge(
        graph,
        chunking_context,
        context,
        entries,
        #[trigger] next.roots[i],
    ) by {
        if walk.roots.len() > 0 {
            assert(next.roots[i] == walk.roots[i + 1]);
        }
    }
    assert forall|i: int| 0 <= i < next.reserved.len() implies (
    #[trigger] next.reserved[i]).node is ChunkItem && is_sound_edge(
        graph,
        chunking_context,
        context,
        entries,
        next.reserved[i],
    ) by {
        if leaves_reserve(context, walk) {
            if i < left_place(walk) {
                assert(next.reserved[i] == walk.reserved[i]);
            } else {
                assert(next.reserved[i] == walk.reserved[i + 1]);
            }
        } else if i < walk.reserved.len() {
            assert(next.reserved[i] == walk.reserved[i]);
        } else {
            assert(next.reserved[i] == walk.roots[0]);
        }
    }
    assert forall|i: int| 0 <= i < next.stack.len() implies is_sound_edge(
        graph,
        chunking_context,
        context,
        entries,
        frame_edge(#[trigger] next.stack[i]),
    ) && (next.stack[i] is Emit ==> frame_edge(next.stack[i]).node is ChunkItem) by {
        if i < base {
            assert(next.stack[i] == walk.stack[i]);
        } else {
            let edge = followed_edge(context, walk)->0;
            if leaves_reserve(context, walk) {
                assert(edge == walk.reserved[left_place(walk)]);
            }
            if i > base {
                lemma_references_edges_are_sound(
                    graph,
                    chunking_context,
                    context,
                    entries,
                    graph.references_of(edge.node->ChunkItem_0),
                );
                let edges = node_edges(graph, chunking_context, context, edge.node)->Ok_0;
                assert(next.stack[i] == pending(edges)[i - base - 1]);
            }
        }
    }
    assert forall|i: int| 0 <= i < next.emitted.len() implies is_sound_edge(
        graph,
        chunking_context,
        context,
        entries,
        #[trigger] next.emitted[i],
    ) by {
        if i < walk.emitted.len() {
            assert(next.emitted[i] == walk.emitted[i]);
        } else if walk.roots.len() > 0 {
            assert(next.emitted[i] == walk.roots[0]);
        }
    }
}

/// The walk over the content of a chunk starts as a sound walk.
pub proof fn lemma_start_is_sound(
    graph: &AssetGraph,
    chunking_context: &ChunkingContext,
    context: ChunkContentContext,
    entries: Seq<AssetId>,
)
    requires
        graph.is_well_formed(),
        entries_have_items(graph, entries),
    ensures
        is_sound_walk(
            graph,
            chunking_context,
            context,
            entries,
            start(root_edges(graph, entries), nothing_processed(graph), 0),
        ),
{
    let walk = start(root_edges(graph, entries), nothing_processed(graph), 0);
    assert forall|i: int| 0 <= i < walk.roots.len() implies is_sound_edge(
        graph,
        chunking_context,
        context,
        entries,
        #[trigger] walk.roots[i],
    ) by {
        assert(graph.item_of(entries[i]) is Some);
        assert(walk.roots[i] == root_edge(graph, entries[i]));
    }
}

/// The walk over the content of a chunk ends as a sound walk.
pub proof fn lemma_content_walk_is_sound(
    graph: &AssetGraph,
    chunking_context: &ChunkingContext,
    context: ChunkContentContext,
    entries: Seq<AssetId>,
)
    requires
        graph.is_well_formed(),
        entries_have_items(graph, entries),
    ensures
        is_sound_walk(
            graph,
            chunking_context,
            context,
            entries,
            content_walk(graph, chunking_context, context, entries),
        ),
{
    let kept = |w: Walk| is_sound_walk(graph, chunking_context, context, entries, w);
    lemma_start_is_sound(graph, chunking_context, context, entries);
    assert forall|w: Walk| kept(w) && w.status is Running && has_work(w) implies #[trigger] kept(
        step(graph, chunking_context, context, w),
    ) by {
        lemma_step_keeps_sound(graph, chunking_context, context, entries, w);
    }
    lemma_run_keeps(
        graph,
        chunking_context,
        context,
        start(root_edges(graph, entries), nothing_processed(graph), 0),
        kept,
    );
}

/// An asset that is available is absorbed: the walk hands out no chunk
/// item, chunk or chunk group for it, unless it is an entry of the chunk,
/// whose chunk item is placed all the same.
pub proof fn lemma_available_assets_are_absorbed(
    graph: &AssetGraph,
    chunking_context: &ChunkingContext,
    context: ChunkContentContext,
    entries: Seq<AssetId>,
    index: int,
)
    requires
        graph.is_well_formed(),
        entries_have_items(graph, entries),
        0 <= index < content_walk(graph, chunking_context, context, entries).emitted.len(),
    ensures
        ({
            let edge = content_walk(graph, chunking_context, context, entries).emitted[index];
            match edge.key {
                Some((asset, _)) => graph.is_available(context.availability_info, asset)
                    ==> edge.node == ChunkContentGraphNode::AvailableAsset(asset) || (
                    entries.contains(asset) && edge == root_edge(graph, asset)),
                None => edge.node is ExternalAssetReference,
            }
        }),
{
    lemma_content_walk_is_sound(graph, chunking_context, context, entries);
    let edge = content_walk(graph, chunking_context, context, entries).emitted[index];
    assert(is_sound_edge(graph, chunking_context, context, entries, edge));
}

/// Each parallel chunk of a list of edges is the node of one of the edges.
proof fn lemma_chunk_comes_from_an_edge(edges: Seq<ChunkContentEdge>, place: int) -> (index: int)
    requires
        0 <= place < chunks_of(edges).len(),
    ensures
        0 <= index < edges.len(),
        edges[index].node == ChunkContentGraphNode::Chunk(chunks_of(edges)[place]),
    decreases edges.len(),
{
    if edges.last().node is Chunk && place == chunks_of(edges.drop_last()).len() {
        edges.len() - 1
    } else {
        lemma_chunk_comes_from_an_edge(edges.drop_last(), place)
    }
}

/// Each chunk group of a list of edges is the node of one of the edges.
proof fn lemma_chunk_group_comes_from_an_edge(edges: Seq<ChunkContentEdge>, place: int) -> (index:
    int)
    requires
        0 <= place < async_chunk_groups_of(edges).len(),
    ensures
        0 <= index < edges.len(),
        edges[index].node == ChunkContentGraphNode::AsyncChunkGroup(
            async_chunk_groups_of(edges)[place].entry,
        ),
    decreases edges.len(),
{
    if edges.last().node is AsyncChunkGroup && place == async_chunk_groups_of(
        edges.drop_last(),
    ).len() {
        edges.len() - 1
    } else {
        lemma_chunk_group_comes_from_an_edge(edges.drop_last(), place)
    }
}

/// The content of a chunk holds no chunk and no chunk group of an asset
/// that is available.
pub proof fn lemma_content_holds_no_available_asset(
    graph: &AssetGraph,
    chunking_context: &ChunkingContext,
    context: ChunkContentContext,
    entries: Seq<AssetId>,
)
    requires
        graph.is_well_formed(),
        entries_have_items(graph, entries),
    ensures
        match chunk_content_of(graph, chunking_context, context, entries) {
            Ok(Some(content)) => {
                &&& forall|k: int|
                    0 <= k < content.chunks.len() ==> !graph.is_available(
                        context.availability_info,
                        (#[trigger] content.chunks[k]).asset,
                    )
                &&& forall|k: int|
                    0 <= k < content.async_chunk_groups.len() ==> !graph.is_available(
                        context.availability_info,
                        (#[trigger] content.async_chunk_groups[k]).entry.asset,
                    )
            },
            _ => true,
        },
{
    lemma_content_walk_is_sound(graph, chunking_context, context, entries);
    let emitted = content_walk(graph, chunking_context, context, entries).emitted;
    assert forall|k: int| 0 <= k < chunks_of(emitted).len() implies !graph.is_available(
        context.availability_info,
        (#[trigger] chunks_of(emitted)[k]).asset,
    ) by {
        let index = lemma_chunk_comes_from_an_edge(emitted, k);
        assert(is_sound_edge(graph, chunking_context, context, entries, emitted[index]));
    }
    assert forall|k: int|
        0 <= k < async_chunk_groups_of(emitted).len() implies !graph.is_available(
        context.availability_info,
        (#[trigger] async_chunk_groups_of(emitted)[k]).entry.asset,
    ) by {
        let index = lemma_chunk_group_comes_from_an_edge(emitted, k);
        assert(is_sound_edge(graph, chunking_context, context, entries, emitted[index]));
    }
}

/// Whether the edge is one that the walk holds: it has handed it out,
/// reserved it or put it off. `kind` tells which, and `index` where.
pub open spec fn is_held_at(walk: Walk, kind: int, index: int, edge: ChunkContentEdge) -> bool {
    if kind == 0 {
        0 <= index < walk.emitted.len() && walk.emitted[index] == edge
    } else if kind == 1 {
        0 <= index < walk.reserved.len() && walk.reserved[index] == edge
    } else {
        kind == 2 && 0 <= index < walk.stack.len() && walk.stack[index] == Frame::Emit(edge)
    }
}

/// Whether the walk holds no key twice: each key of an edge that it holds
/// is recorded, and no two edges that it holds have the same key.
pub open spec fn holds_each_key_once(walk: Walk) -> bool {
    &&& forall|kind: int, index: int, edge: ChunkContentEdge| #[trigger]
        is_held_at(walk, kind, index, edge) ==> match edge.key {
            Some((asset, chunking_type)) => is_processed(walk.processed, asset, chunking_type),
            None => kind == 0,
        }
    &&& forall|kind: int, index: int, edge: ChunkContentEdge, other_kind: int, other_index: int, other: ChunkContentEdge|
        #![trigger is_held_at(walk, kind, index, edge), is_held_at(walk, other_kind, other_index, other)]
        is_held_at(walk, kind, index, edge) && is_held_at(walk, other_kind, other_index, other)
            && (kind != other_kind || index != other_index) && edge.key is Some ==> edge.key
            != other.key
}

/// Where an edge that the walk holds after a step was held before the
/// step: `(-1, 0)` for an edge that the step decided on and that was not
/// held before.
pub open spec fn held_before(
    context: ChunkContentContext,
    walk: Walk,
    kind: int,
    index: int,
) -> (int, int) {
    let base = base_of(walk);
    if kind == 0 {
        if index < walk.emitted.len() {
            (0, index)
        } else if walk.roots.len() == 0 && walk.stack.len() > 0 && walk.stack.last() is Emit {
            (2, base)
        } else {
            (-1, 0)
        }
    } else if kind == 1 {
        if leaves_reserve(context, walk) {
            if index < left_place(walk) {
                (1, index)
            } else {
                (1, index + 1)
            }
        } else if index < walk.reserved.len() {
            (1, index)
        } else {
            (-1, 0)
        }
    } else {
        if index < base {
            (2, index)
        } else if leaves_reserve(context, walk) {
            (1, left_place(walk))
        } else {
            (-1, 0)
        }
    }
}

/// An edge that the walk holds after a step was held before the step, at
/// another place for another place, or is the one that the step decided on
/// and passed for the first time.
pub proof fn lemma_held_edges_come_from_held_edges(
    graph: &AssetGraph,
    chunking_context: &ChunkingContext,
    context: ChunkContentContext,
    entries: Seq<AssetId>,
    walk: Walk,
    kind: int,
    index: int,
    edge: ChunkContentEdge,
)
    requires
        is_sound_walk(graph, chunking_context, context, entries, walk),
        walk.status is Running,
        has_work(walk),
        is_held_at(step(graph, chunking_context, context, walk), kind, index, edge),
    ensures
        ({
            let before = held_before(context, walk, kind, index);
            if before.0 == -1 {
                decided_edge(walk) == Some(edge) && if kind == 0 {
                    !expands(walk.processed, edge) && (is_fresh(walk.processed, edge)
                        || edge.key is None)
                } else {
                    expands(walk.processed, edge) && (kind == 1 <==> walk.roots.len() > 0)
                }
            } else {
                is_held_at(walk, before.0, before.1, edge)
            }
        }),
{
    let next = step(graph, chunking_context, context, walk);
    let base = base_of(walk);
    lemma_step_shape(graph, chunking_context, context, walk);
    lemma_step_shapes_reserve(graph, chunking_context, context, walk);
    if walk.stack.len() > 0 {
        assert(is_sound_edge(
            graph,
            chunking_context,
            context,
            entries,
            frame_edge(walk.stack[walk.stack.len() - 1]),
        ));
    }
    if walk.roots.len() > 0 {
        assert(is_sound_edge(graph, chunking_context, context, entries, walk.roots[0]));
    }
    if kind == 2 {
        if index < base {
            assert(next.stack[index] == walk.stack[index]);
        } else if index > base {
            let followed = followed_edge(context, walk)->0;
            let edges = node_edges(graph, chunking_context, context, followed.node)->Ok_0;
            assert(next.stack[index] == pending(edges)[index - base - 1]);
        }
    }
}

/// Where an edge that the walk holds before a step is held after the
/// step.
pub open spec fn held_after(
    context: ChunkContentContext,
    walk: Walk,
    kind: int,
    index: int,
) -> (int, int) {
    let base = base_of(walk);
    if kind == 0 {
        (0, index)
    } else if kind == 1 {
        if !leaves_reserve(context, walk) || index < left_place(walk) {
            (1, index)
        } else if index == left_place(walk) {
            (2, base)
        } else {
            (1, index - 1)
        }
    } else {
        if index < base {
            (2, index)
        } else {
            (0, walk.emitted.len() as int)
        }
    }
}

/// An edge that the walk holds stays held over a step after which the walk
/// goes on.
pub proof fn lemma_held_edges_stay_held(
    graph: &AssetGraph,
    chunking_context: &ChunkingContext,
    context: ChunkContentContext,
    walk: Walk,
    kind: int,
    index: int,
    edge: ChunkContentEdge,
)
    requires
        walk.status is Running,
        has_work(walk),
        step(graph, chunking_context, context, walk).status is Running,
        is_held_at(walk, kind, index, edge),
    ensures
        ({
            let after = held_after(context, walk, kind, index);
            is_held_at(step(graph, chunking_context, context, walk), after.0, after.1, edge)
        }),
{
    let next = step(graph, chunking_context, context, walk);
    lemma_step_shape(graph, chunking_context, context, walk);
    lemma_step_shapes_reserve(graph, chunking_context, context, walk);
    if kind == 0 {
        assert(next.emitted[index] == walk.emitted[index]);
    } else if kind == 2 && index < base_of(walk) {
        assert(next.stack[index] == walk.stack[index]);
    }
}

/// A step of a sound walk that holds no key twice leads to such a walk.
pub proof fn lemma_step_keeps_each_key_once(
    graph: &AssetGraph,
    chunking_context: &ChunkingContext,
    context: ChunkContentContext,
    entries: Seq<AssetId>,
    walk: Walk,
)
    requires
        is_sound_walk(graph, chunking_context, context, entries, walk),
        holds_each_key_once(walk),
        walk.status is Running,
        has_work(walk),
    ensures
        holds_each_key_once(step(graph, chunking_context, context, walk)),
{
    let next = step(graph, chunking_context, context, walk);
    lemma_step_shape(graph, chunking_context, context, walk);
    assert forall|kind: int, index: int, edge: ChunkContentEdge| #[trigger]
        is_held_at(next, kind, index, edge) implies match edge.key {
        Some((asset, chunking_type)) => is_processed(next.processed, asset, chunking_type),
        None => kind == 0,
    } by {
        lemma_held_edges_come_from_held_edges(
            graph,
            chunking_context,
            context,
            entries,
            walk,
            kind,
            index,
            edge,
        );
        let before = held_before(context, walk, kind, index);
        if before.0 != -1 {
            assert(is_held_at(walk, before.0, before.1, edge));
        } else if is_fresh(walk.processed, edge) {
            lemma_step_decides_on_a_key(graph, chunking_context, context, walk, edge);
        }
    }
    assert forall|kind: int, index: int, edge: ChunkContentEdge, other_kind: int, other_index: int, other: ChunkContentEdge|
        #![trigger is_held_at(next, kind, index, edge), is_held_at(next, other_kind, other_index, other)]
        is_held_at(next, kind, index, edge) && is_held_at(next, other_kind, other_index, other)
            && (kind != other_kind || index != other_index) && edge.key is Some implies edge.key
        != other.key by {
        lemma_held_edges_come_from_held_edges(
            graph,
            chunking_context,
            context,
            entries,
            walk,
            kind,
            index,
            edge,
        );
        lemma_held_edges_come_from_held_edges(
            graph,
            chunking_context,
            context,
            entries,
            walk,
            other_kind,
            other_index,
            other,
        );
        let before = held_before(context, walk, kind, index);
        let other_before = held_before(context, walk, other_kind, other_index);
        if before.0 != -1 && other_before.0 != -1 {
            assert(is_held_at(walk, before.0, before.1, edge));
            assert(is_held_at(walk, other_before.0, other_before.1, other));
        } else if before.0 != -1 {
            assert(is_held_at(walk, before.0, before.1, edge));
        } else if other_before.0 != -1 {
            assert(is_held_at(walk, other_before.0, other_before.1, other));
        }
    }
}

/// The key of an edge that a step decides on and passes for the first time
/// is recorded after the step, and was not recorded before.
pub proof fn lemma_step_decides_on_a_key(
    graph: &AssetGraph,
    chunking_context: &ChunkingContext,
    context: ChunkContentContext,
    walk: Walk,
    edge: ChunkContentEdge,
)
    requires
        walk.status is Running,
        has_work(walk),
        decided_edge(walk) == Some(edge),
        is_fresh(walk.processed, edge),
    ensures
        edge.key matches Some(key) && !is_processed(walk.processed, key.0, key.1)
            && is_processed(step(graph, chunking_context, context, walk).processed, key.0, key.1),
{
}

/// No key is handed out twice: among the edges that the walk over the
/// content of a chunk hands out, no two have the same key.
pub proof fn lemma_keys_are_handed_out_once(
    graph: &AssetGraph,
    chunking_context: &ChunkingContext,
    context: ChunkContentContext,
    entries: Seq<AssetId>,
    first: int,
    second: int,
)
    requires
        graph.is_well_formed(),
        entries_have_items(graph, entries),
        0 <= first < second < content_walk(
            graph,
            chunking_context,
            context,
            entries,
        ).emitted.len(),
        content_walk(graph, chunking_context, context, entries).emitted[first].key is Some,
    ensures
        content_walk(graph, chunking_context, context, entries).emitted[first].key
            != content_walk(graph, chunking_context, context, entries).emitted[second].key,
{
    let kept = |w: Walk|
        is_sound_walk(graph, chunking_context, context, entries, w) && holds_each_key_once(w);
    lemma_start_is_sound(graph, chunking_context, context, entries);
    assert forall|w: Walk| kept(w) && w.status is Running && has_work(w) implies #[trigger] kept(
        step(graph, chunking_context, context, w),
    ) by {
        lemma_step_keeps_sound(graph, chunking_context, context, entries, w);
        lemma_step_keeps_each_key_once(graph, chunking_context, context, entries, w);
    }
    lemma_run_keeps(
        graph,
        chunking_context,
        context,
        start(root_edges(graph, entries), nothing_processed(graph), 0),
        kept,
    );
    let end = content_walk(graph, chunking_context, context, entries);
    assert(is_held_at(end, 0, first, end.emitted[first]));
    assert(is_held_at(end, 0, second, end.emitted[second]));
}

/// The number of chunk items that a walk has put off.
pub open spec fn put_off(stack: Seq<Frame>) -> nat
    decreases stack.len(),
{
    if stack.len() == 0 {
        0
    } else {
        put_off(stack.drop_last()) + if stack.last() is Emit {
            1nat
        } else {
            0nat
        }
    }
}

proof fn lemma_put_off_adds_up(front: Seq<Frame>, back: Seq<Frame>)
    ensures
        put_off(front + back) == put_off(front) + put_off(back),
    decreases back.len(),
{
    if back.len() == 0 {
        assert(front + back =~= front);
    } else {
        lemma_put_off_adds_up(front, back.drop_last());
        assert((front + back).drop_last() =~= front + back.drop_last());
    }
}

proof fn lemma_pending_puts_off_nothing(edges: Seq<ChunkContentEdge>, upto: int)
    requires
        0 <= upto <= edges.len(),
    ensures
        put_off(pending(edges).take(upto)) == 0,
    decreases upto,
{
    if upto > 0 {
        lemma_pending_puts_off_nothing(edges, upto - 1);
        assert(pending(edges).take(upto).drop_last() =~= pending(edges).take(upto - 1));
    }
}

/// Whether the walk over a chunk that is not split has counted its chunk
/// items: the count is that of the chunk items that were handed out or are
/// reserved or put off, and it is below the limit.
pub open spec fn counts_chunk_items(context: ChunkContentContext, walk: Walk) -> bool {
    !context.split && walk.status is Running ==> {
        &&& walk.chunk_items_count < MAX_CHUNK_ITEMS_COUNT
        &&& chunk_items_of(walk.emitted).len() + walk.reserved.len() + put_off(walk.stack)
            == walk.chunk_items_count
    }
}

/// The frames above the bottom of a stack put off as many chunk items as
/// the whole stack does beyond those of the bottom.
proof fn lemma_put_off_from_the_bottom(stack: Seq<Frame>, base: int)
    requires
        0 <= base <= stack.len(),
    ensures
        put_off(stack) == put_off(stack.take(base)) + put_off(stack.skip(base)),
{
    assert(stack =~= stack.take(base) + stack.skip(base));
    lemma_put_off_adds_up(stack.take(base), stack.skip(base));
}

/// A step of a sound walk that has counted its chunk items leads to such a
/// walk.
pub proof fn lemma_step_keeps_count(
    graph: &AssetGraph,
    chunking_context: &ChunkingContext,
    context: ChunkContentContext,
    entries: Seq<AssetId>,
    walk: Walk,
)
    requires
        is_sound_walk(graph, chunking_context, context, entries, walk),
        counts_chunk_items(context, walk),
        walk.status is Running,
        has_work(walk),
    ensures
        counts_chunk_items(context, step(graph, chunking_context, context, walk)),
{
    let next = step(graph, chunking_context, context, walk);
    let base = base_of(walk);
    lemma_step_shape(graph, chunking_context, context, walk);
    lemma_step_shapes_reserve(graph, chunking_context, context, walk);
    if !context.split && next.status is Running {
        if walk.stack.len() > 0 {
            assert(is_sound_edge(
                graph,
                chunking_context,
                context,
                entries,
                frame_edge(walk.stack[walk.stack.len() - 1]),
            ));
        }
        if walk.roots.len() > 0 {
            assert(is_sound_edge(graph, chunking_context, context, entries, walk.roots[0]));
        }
        // The chunk items that are handed out.
        assert(next.emitted.len() > walk.emitted.len() ==> next.emitted.drop_last()
            =~= walk.emitted);
        // The chunk items that are put off.
        lemma_put_off_from_the_bottom(walk.stack, base);
        lemma_put_off_from_the_bottom(next.stack, base);
        assert(next.stack.take(base) =~= walk.stack.take(base));
        if walk.roots.len() > 0 {
            assert(walk.stack.skip(base) =~= Seq::<Frame>::empty());
        } else if walk.stack.len() > 0 {
            assert(walk.stack.skip(base) =~= seq![walk.stack[base]]);
            assert(seq![walk.stack[base]].drop_last() =~= Seq::<Frame>::empty());
            assert(put_off(Seq::<Frame>::empty()) == 0);
        } else {
            assert(walk.stack.skip(base) =~= Seq::<Frame>::empty());
        }
        match followed_edge(context, walk) {
            Some(edge) => {
                let edges = node_edges(graph, chunking_context, context, edge.node)->Ok_0;
                assert(next.stack.skip(base) =~= seq![Frame::Emit(edge)] + pending(edges));
                lemma_put_off_adds_up(seq![Frame::Emit(edge)], pending(edges));
                lemma_pending_puts_off_nothing(edges, edges.len() as int);
                assert(pending(edges).take(edges.len() as int) =~= pending(edges));
                assert(seq![Frame::Emit(edge)].drop_last() =~= Seq::<Frame>::empty());
                assert(put_off(Seq::<Frame>::empty()) == 0);
            },
            None => {
                assert(next.stack.skip(base) =~= Seq::<Frame>::empty());
            },
        }
    }
}

/// The size bound: the content of a chunk that is not split has fewer chunk
/// items than the limit.
pub proof fn lemma_unsplit_content_is_bounded(
    graph: &AssetGraph,
    chunking_context: &ChunkingContext,
    context: ChunkContentContext,
    entries: Seq<AssetId>,
)
    requires
        graph.is_well_formed(),
        entries_have_items(graph, entries),
        !context.split,
    ensures
        match chunk_content_of(graph, chunking_context, context, entries) {
            Ok(Some(content)) => content.chunk_items.len() < MAX_CHUNK_ITEMS_COUNT,
            _ => true,
        },
{
    let kept = |w: Walk|
        is_sound_walk(graph, chunking_context, context, entries, w) && counts_chunk_items(
            context,
            w,
        );
    let begin = start(root_edges(graph, entries), nothing_processed(graph), 0);
    lemma_start_is_sound(graph, chunking_context, context, entries);
    assert forall|w: Walk| kept(w) && w.status is Running && has_work(w) implies #[trigger] kept(
        step(graph, chunking_context, context, w),
    ) by {
        lemma_step_keeps_sound(graph, chunking_context, context, entries, w);
        lemma_step_keeps_count(graph, chunking_context, context, entries, w);
    }
    lemma_run_keeps(graph, chunking_context, context, begin, kept);
    lemma_run_leaves_no_work(graph, chunking_context, context, begin);
}

/// A chunk that is being split takes in nothing on the heuristic: no edge
/// that its walk hands out for an asset that may be placed or loaded in
/// parallel leads to a chunk item.
pub proof fn lemma_split_content_places_nothing_by_heuristic(
    graph: &AssetGraph,
    chunking_context: &ChunkingContext,
    context: ChunkContentContext,
    entries: Seq<AssetId>,
    index: int,
)
    requires
        graph.is_well_formed(),
        entries_have_items(graph, entries),
        context.split,
        0 <= index < content_walk(graph, chunking_context, context, entries).emitted.len(),
        content_walk(graph, chunking_context, context, entries).emitted[index].key matches Some(
            key,
        ) && key.1 == ChunkingType::PlacedOrParallel,
    ensures
        !(content_walk(
            graph,
            chunking_context,
            context,
            entries,
        ).emitted[index].node is ChunkItem),
{
    lemma_content_walk_is_sound(graph, chunking_context, context, entries);
    let edge = content_walk(graph, chunking_context, context, entries).emitted[index];
    assert(is_sound_edge(graph, chunking_context, context, entries, edge));
}

/// A chunk that is loaded in parallel and isolated starts an availability
/// root of its own: the chunk that the walk hands out for such an asset is
/// the root chunk of the asset, whatever is available to the chunk that
/// refers to it.
pub proof fn lemma_isolated_chunks_are_root_chunks(
    graph: &AssetGraph,
    chunking_context: &ChunkingContext,
    context: ChunkContentContext,
    entries: Seq<AssetId>,
    index: int,
)
    requires
        graph.is_well_formed(),
        entries_have_items(graph, entries),
        0 <= index < content_walk(graph, chunking_context, context, entries).emitted.len(),
        content_walk(graph, chunking_context, context, entries).emitted[index].key matches Some(
            key,
        ) && key.1 == ChunkingType::IsolatedParallel,
    ensures
        ({
            let edge = content_walk(graph, chunking_context, context, entries).emitted[index];
            match edge.key {
                Some((asset, _)) => edge.node is Chunk ==> edge.node
                    == ChunkContentGraphNode::Chunk(root_chunk(chunking_context.id, asset)),
                None => true,
            }
        }),
{
    lemma_content_walk_is_sound(graph, chunking_context, context, entries);
    let edge = content_walk(graph, chunking_context, context, entries).emitted[index];
    assert(is_sound_edge(graph, chunking_context, context, entries, edge));
}

/// The content of a chunk is determined by the graph, the chunking context
/// and the entries: two computations of it agree.
pub proof fn lemma_content_is_determined(
    first: Result<Option<ChunkContentResult>, ChunkingError>,
    second: Result<Option<ChunkContentResult>, ChunkingError>,
    expected: Result<Option<ChunkContent>, ChunkingError>,
)
    requires
        content_matches(first, expected),
        content_matches(second, expected),
    ensures
        match (first, second) {
            (Ok(Some(one)), Ok(Some(other))) => one@ == other@,
            (Ok(None), Ok(None)) => true,
            (Err(one), Err(other)) => one == other,
            _ => false,
        },
{
}

} // verus!
