use crate::availability::AssetId;
use crate::chunking_type::ChunkingType;
use crate::content::{
    chunk_content_of, chunk_items_of, content_walk, entries_have_items, nothing_processed,
    root_edges,
};
use crate::context::ChunkingContext;
use crate::graph::{AssetGraph, ChunkItemId};
use crate::laws::{
    held_after, is_held_at, is_sound_edge, is_sound_walk, lemma_held_edges_stay_held,
    lemma_references_edges_are_sound, lemma_start_is_sound, lemma_step_keeps_sound,
    lemma_step_shapes_reserve,
};
use crate::node::{ChunkContentContext, ChunkContentEdge, ChunkContentGraphNode};
use crate::reach::{
    holds_reached_only, is_reached, lemma_start_holds_reached_only,
    lemma_step_keeps_reached_only,
};
use crate::visit::{is_processed, node_edges};
use crate::walk::{
    base_of, decided_edge, expands, followed_edge, frame_edge, has_work, leaves_reserve,
    lemma_edge_has_a_place, lemma_run_keeps, lemma_step_shape, pending, start, step, Frame, Walk,
};
use vstd::prelude::*;

verus! {

/// Whether a node is a chunk item that refers to the chunk item behind
/// `edge`: the edge is one of those that leave the node.
pub open spec fn refers_to(
    graph: &AssetGraph,
    chunking_context: &ChunkingContext,
    context: ChunkContentContext,
    node: ChunkContentGraphNode,
    edge: ChunkContentEdge,
) -> bool {
    &&& node is ChunkItem
    &&& edge.node is ChunkItem
    &&& match node_edges(graph, chunking_context, context, node) {
        Ok(edges) => edges.contains(edge),
        Err(_) => false,
    }
}

/// Whether `rank` shows that the chunk items that are reached from the
/// entries refer to each other without a cycle: every reached chunk item
/// ranks above those it refers to.
pub open spec fn is_ranking(
    graph: &AssetGraph,
    chunking_context: &ChunkingContext,
    context: ChunkContentContext,
    entries: Seq<AssetId>,
    rank: spec_fn(ChunkItemId) -> nat,
) -> bool {
    forall|from: ChunkContentEdge, edge: ChunkContentEdge|
        is_reached(graph, chunking_context, context, entries, from) && #[trigger] refers_to(
            graph,
            chunking_context,
            context,
            from.node,
            edge,
        ) ==> rank(edge.node->ChunkItem_0) < rank(from.node->ChunkItem_0)
}

/// Whether the edge is among the first `upto` that were handed out.
pub open spec fn is_handed_out(
    emitted: Seq<ChunkContentEdge>,
    upto: int,
    edge: ChunkContentEdge,
) -> bool {
    exists|j: int| 0 <= j < upto && j < emitted.len() && #[trigger] emitted[j] == edge
}

/// Whether the edge waits on the stack above the given place.
pub open spec fn waits_above(stack: Seq<Frame>, place: int, edge: ChunkContentEdge) -> bool {
    exists|t: int| place < t < stack.len() && frame_edge(#[trigger] stack[t]) == edge
}

/// Whether the key is that of an edge that the walk holds: one that it has
/// handed out, reserved or put off.
pub open spec fn is_held(walk: Walk, key: (AssetId, ChunkingType)) -> bool {
    exists|kind: int, index: int, edge: ChunkContentEdge| #[trigger]
        is_held_at(walk, kind, index, edge) && edge.key == Some(key)
}

/// Whether each chunk item that was handed out came after the chunk items
/// that it refers to.
pub open spec fn done_in_order(
    graph: &AssetGraph,
    chunking_context: &ChunkingContext,
    context: ChunkContentContext,
    walk: Walk,
) -> bool {
    forall|i: int, edge: ChunkContentEdge|
        0 <= i < walk.emitted.len() && #[trigger] refers_to(
            graph,
            chunking_context,
            context,
            walk.emitted[i].node,
            edge,
        ) ==> is_handed_out(walk.emitted, i, edge)
}

/// Whether each chunk item that is put off has those it refers to handed
/// out already or waiting above it.
pub open spec fn put_off_in_order(
    graph: &AssetGraph,
    chunking_context: &ChunkingContext,
    context: ChunkContentContext,
    walk: Walk,
) -> bool {
    forall|s: int, edge: ChunkContentEdge|
        0 <= s < walk.stack.len() && walk.stack[s] is Emit && #[trigger] refers_to(
            graph,
            chunking_context,
            context,
            frame_edge(walk.stack[s]).node,
            edge,
        ) ==> is_handed_out(walk.emitted, walk.emitted.len() as int, edge) || waits_above(
            walk.stack,
            s,
            edge,
        )
}

/// Whether whatever lies above a chunk item that is put off ranks below it.
pub open spec fn ranks_fall(rank: spec_fn(ChunkItemId) -> nat, walk: Walk) -> bool {
    forall|s: int, t: int|
        0 <= s < t < walk.stack.len() && (#[trigger] walk.stack[s]) is Emit && frame_edge(
            walk.stack[s],
        ).node is ChunkItem && frame_edge(#[trigger] walk.stack[t]).node is ChunkItem ==> rank(
            frame_edge(walk.stack[t]).node->ChunkItem_0,
        ) < rank(frame_edge(walk.stack[s]).node->ChunkItem_0)
}

/// Whether every recorded key is that of an edge that the walk holds.
pub open spec fn keys_are_held(walk: Walk) -> bool {
    forall|asset: AssetId, chunking_type: ChunkingType| #[trigger]
        is_processed(walk.processed, asset, chunking_type) ==> is_held(
            walk,
            (asset, chunking_type),
        )
}

/// Whether a walk is in order, as long as it is going on.
pub open spec fn is_in_order(
    graph: &AssetGraph,
    chunking_context: &ChunkingContext,
    context: ChunkContentContext,
    rank: spec_fn(ChunkItemId) -> nat,
    walk: Walk,
) -> bool {
    walk.status is Running ==> {
        &&& done_in_order(graph, chunking_context, context, walk)
        &&& put_off_in_order(graph, chunking_context, context, walk)
        &&& ranks_fall(rank, walk)
        &&& keys_are_held(walk)
    }
}

/// An edge to a chunk item that leaves a chunk item is what the classifier
/// makes of its key.
pub proof fn lemma_referred_edges_are_placed(
    graph: &AssetGraph,
    chunking_context: &ChunkingContext,
    context: ChunkContentContext,
    node: ChunkContentGraphNode,
    edge: ChunkContentEdge,
)
    requires
        graph.is_well_formed(),
        refers_to(graph, chunking_context, context, node, edge),
    ensures
        is_sound_edge(graph, chunking_context, context, Seq::<AssetId>::empty(), edge),
        edge.key is Some,
{
    lemma_references_edges_are_sound(
        graph,
        chunking_context,
        context,
        Seq::<AssetId>::empty(),
        graph.references_of(node->ChunkItem_0),
    );
    let edges = node_edges(graph, chunking_context, context, node)->Ok_0;
    let m = choose|m: int| 0 <= m < edges.len() && edges[m] == edge;
    assert(is_sound_edge(graph, chunking_context, context, Seq::<AssetId>::empty(), edges[m]));
}

/// A sound edge with the key of an edge to a chunk item that leaves a chunk
/// item is that edge.
pub proof fn lemma_key_names_referred_edge(
    graph: &AssetGraph,
    chunking_context: &ChunkingContext,
    context: ChunkContentContext,
    entries: Seq<AssetId>,
    node: ChunkContentGraphNode,
    edge: ChunkContentEdge,
    other: ChunkContentEdge,
)
    requires
        graph.is_well_formed(),
        refers_to(graph, chunking_context, context, node, edge),
        is_sound_edge(graph, chunking_context, context, entries, other),
        other.key == edge.key,
    ensures
        other == edge,
{
    lemma_referred_edges_are_placed(graph, chunking_context, context, node, edge);
}

/// A step keeps the chunk items that were handed out in order.
proof fn lemma_step_keeps_done_in_order(
    graph: &AssetGraph,
    chunking_context: &ChunkingContext,
    context: ChunkContentContext,
    entries: Seq<AssetId>,
    rank: spec_fn(ChunkItemId) -> nat,
    walk: Walk,
)
    requires
        is_sound_walk(graph, chunking_context, context, entries, walk),
        is_in_order(graph, chunking_context, context, rank, walk),
        walk.status is Running,
        has_work(walk),
    ensures
        done_in_order(
            graph,
            chunking_context,
            context,
            step(graph, chunking_context, context, walk),
        ),
{
    let next = step(graph, chunking_context, context, walk);
    let base = base_of(walk);
    let done = walk.emitted.len() as int;
    lemma_step_shape(graph, chunking_context, context, walk);
    if walk.stack.len() > 0 {
        assert(is_sound_edge(
            graph,
            chunking_context,
            context,
            entries,
            frame_edge(walk.stack[walk.stack.len() - 1]),
        ));
    }
    if walk.roots.len() > 0 {
        assert(is_sound_edge(graph, chunking_context, context, entries, walk.roots[0]));
    }
    assert forall|i: int, edge: ChunkContentEdge|
        0 <= i < next.emitted.len() && #[trigger] refers_to(
            graph,
            chunking_context,
            context,
            next.emitted[i].node,
            edge,
        ) implies is_handed_out(next.emitted, i, edge) by {
        if i < done {
            assert(next.emitted[i] == walk.emitted[i]);
            assert(is_handed_out(walk.emitted, i, edge));
            let j = choose|j: int|
                0 <= j < i && j < walk.emitted.len() && #[trigger] walk.emitted[j] == edge;
            assert(next.emitted[j] == edge);
        } else {
            assert(walk.roots.len() == 0 && walk.stack[base] is Emit);
            assert(next.emitted[i] == frame_edge(walk.stack[base]));
            assert(!waits_above(walk.stack, base, edge));
            assert(is_handed_out(walk.emitted, done, edge));
            let j = choose|j: int| 0 <= j < done && #[trigger] walk.emitted[j] == edge;
            assert(next.emitted[j] == edge);
        }
    }
}

/// A step keeps what lies above a chunk item that is put off ranking below
/// it.
proof fn lemma_step_keeps_ranks_falling(
    graph: &AssetGraph,
    chunking_context: &ChunkingContext,
    context: ChunkContentContext,
    entries: Seq<AssetId>,
    rank: spec_fn(ChunkItemId) -> nat,
    walk: Walk,
)
    requires
        is_sound_walk(graph, chunking_context, context, entries, walk),
        is_in_order(graph, chunking_context, context, rank, walk),
        holds_reached_only(graph, chunking_context, context, entries, walk),
        is_ranking(graph, chunking_context, context, entries, rank),
        walk.status is Running,
        has_work(walk),
        step(graph, chunking_context, context, walk).status is Running,
    ensures
        ranks_fall(rank, step(graph, chunking_context, context, walk)),
{
    let next = step(graph, chunking_context, context, walk);
    let base = base_of(walk);
    lemma_step_shape(graph, chunking_context, context, walk);
    lemma_step_shapes_reserve(graph, chunking_context, context, walk);
    assert forall|s: int, t: int|
        0 <= s < t < next.stack.len() && (#[trigger] next.stack[s]) is Emit && frame_edge(
            next.stack[s],
        ).node is ChunkItem && frame_edge(
            #[trigger] next.stack[t],
        ).node is ChunkItem implies rank(frame_edge(next.stack[t]).node->ChunkItem_0) < rank(
        frame_edge(next.stack[s]).node->ChunkItem_0,
    ) by {
        if t < base {
            assert(next.stack[s] == walk.stack[s]);
            assert(next.stack[t] == walk.stack[t]);
        } else {
            let last = followed_edge(context, walk)->0;
            let edges = node_edges(graph, chunking_context, context, last.node)->Ok_0;
            // What is followed was the edge on top, unless the stack was
            // empty.
            if walk.stack.len() > 0 {
                assert(frame_edge(walk.stack[base]) == last);
            }
            if s < base {
                assert(next.stack[s] == walk.stack[s]);
                assert(walk.stack[s] is Emit);
            }
            if t > base {
                let m = edges.len() - 1 - (t - base - 1);
                assert(next.stack[t] == pending(edges)[t - base - 1]);
                assert(frame_edge(next.stack[t]) == edges[m]);
                assert(is_reached(graph, chunking_context, context, entries, last)) by {
                    if walk.stack.len() > 0 {
                        assert(frame_edge(walk.stack[base]).node is ChunkItem);
                    } else {
                        assert(walk.reserved[0].node is ChunkItem);
                    }
                }
                assert(refers_to(graph, chunking_context, context, last.node, edges[m]));
                if s > base {
                    assert(next.stack[s] == pending(edges)[s - base - 1]);
                }
            }
        }
    }
}

/// A step keeps every recorded key held.
pub proof fn lemma_step_keeps_keys_held(
    graph: &AssetGraph,
    chunking_context: &ChunkingContext,
    context: ChunkContentContext,
    entries: Seq<AssetId>,
    walk: Walk,
)
    requires
        is_sound_walk(graph, chunking_context, context, entries, walk),
        keys_are_held(walk),
        walk.status is Running,
        has_work(walk),
        step(graph, chunking_context, context, walk).status is Running,
    ensures
        keys_are_held(step(graph, chunking_context, context, walk)),
{
    let next = step(graph, chunking_context, context, walk);
    let base = base_of(walk);
    lemma_step_shape(graph, chunking_context, context, walk);
    lemma_step_shapes_reserve(graph, chunking_context, context, walk);
    assert forall|asset: AssetId, chunking_type: ChunkingType| #[trigger]
        is_processed(next.processed, asset, chunking_type) implies is_held(
        next,
        (asset, chunking_type),
    ) by {
        let key = (asset, chunking_type);
        if is_processed(walk.processed, asset, chunking_type) {
            assert(is_held(walk, key));
            let (kind, index, edge) = choose|kind: int, index: int, edge: ChunkContentEdge| #[trigger]
                is_held_at(walk, kind, index, edge) && edge.key == Some(key);
            lemma_held_edges_stay_held(
                graph,
                chunking_context,
                context,
                walk,
                kind,
                index,
                edge,
            );
            let after = held_after(context, walk, kind, index);
            assert(is_held_at(next, after.0, after.1, edge));
        } else {
            let edge = decided_edge(walk)->0;
            assert(edge.key == Some(key));
            if expands(walk.processed, edge) {
                if walk.roots.len() > 0 {
                    assert(is_held_at(next, 1, walk.reserved.len() as int, edge));
                } else {
                    assert(is_held_at(next, 2, base, edge));
                }
            } else {
                assert(is_held_at(next, 0, walk.emitted.len() as int, edge));
            }
        }
    }
}

/// A step keeps each chunk item that is put off with those it refers to
/// handed out or waiting above it.
proof fn lemma_step_keeps_put_off_in_order(
    graph: &AssetGraph,
    chunking_context: &ChunkingContext,
    context: ChunkContentContext,
    entries: Seq<AssetId>,
    rank: spec_fn(ChunkItemId) -> nat,
    walk: Walk,
)
    requires
        is_sound_walk(graph, chunking_context, context, entries, walk),
        is_in_order(graph, chunking_context, context, rank, walk),
        walk.status is Running,
        has_work(walk),
        step(graph, chunking_context, context, walk).status is Running,
    ensures
        put_off_in_order(
            graph,
            chunking_context,
            context,
            step(graph, chunking_context, context, walk),
        ),
{
    let next = step(graph, chunking_context, context, walk);
    let base = base_of(walk);
    let done = walk.emitted.len() as int;
    lemma_step_shape(graph, chunking_context, context, walk);
    lemma_step_shapes_reserve(graph, chunking_context, context, walk);
    assert forall|s: int, edge: ChunkContentEdge|
        0 <= s < next.stack.len() && next.stack[s] is Emit && #[trigger] refers_to(
            graph,
            chunking_context,
            context,
            frame_edge(next.stack[s]).node,
            edge,
        ) implies is_handed_out(next.emitted, next.emitted.len() as int, edge) || waits_above(
        next.stack,
        s,
        edge,
    ) by {
        if s < base {
            assert(next.stack[s] == walk.stack[s]);
            if is_handed_out(walk.emitted, done, edge) {
                let j = choose|j: int| 0 <= j < done && #[trigger] walk.emitted[j] == edge;
                assert(next.emitted[j] == edge);
            } else {
                assert(waits_above(walk.stack, s, edge));
                let t = choose|t: int|
                    s < t < walk.stack.len() && frame_edge(#[trigger] walk.stack[t]) == edge;
                if t < base {
                    assert(next.stack[t] == walk.stack[t]);
                } else if next.stack.len() > base {
                    // The edge on top is followed, here or from the reserve.
                    if leaves_reserve(context, walk) {
                        lemma_edge_has_a_place(
                            walk.reserved,
                            edge,
                            choose|i: int| 0 <= i < walk.reserved.len() && walk.reserved[i] == edge,
                        );
                    }
                    assert(frame_edge(next.stack[base]) == edge);
                } else if next.emitted.len() > done {
                    assert(next.emitted[done] == edge);
                } else {
                    // The edge on top was dropped: its key has been
                    // recorded, and it is not of the reserve.
                    let key = edge.key->0;
                    lemma_referred_edges_are_placed(
                        graph,
                        chunking_context,
                        context,
                        frame_edge(walk.stack[s]).node,
                        edge,
                    );
                    assert(is_processed(walk.processed, key.0, key.1));
                    assert(is_held(walk, key));
                    let (kind, index, held) = choose|kind: int, index: int, held: ChunkContentEdge| #[trigger]
                        is_held_at(walk, kind, index, held) && held.key == Some(key);
                    assert(is_sound_edge(graph, chunking_context, context, entries, held)) by {
                        if kind == 2 {
                            assert(frame_edge(walk.stack[index]) == held);
                        }
                    }
                    lemma_key_names_referred_edge(
                        graph,
                        chunking_context,
                        context,
                        entries,
                        frame_edge(walk.stack[s]).node,
                        edge,
                        held,
                    );
                    if kind == 0 {
                        assert(next.emitted[index] == edge);
                    } else if kind == 1 {
                        assert(walk.reserved.contains(edge));
                    } else {
                        // A chunk item that is put off ranks above the edge on
                        // top, so it is not the one that the edge leads to.
                        assert(index < base);
                        assert(frame_edge(walk.stack[index]).node == frame_edge(
                            walk.stack[base],
                        ).node);
                    }
                }
            }
        } else if s == base {
            let last = followed_edge(context, walk)->0;
            let edges = node_edges(graph, chunking_context, context, last.node)->Ok_0;
            let m = choose|m: int| 0 <= m < edges.len() && edges[m] == edge;
            let t = base + 1 + (edges.len() - 1 - m);
            assert(next.stack[t] == pending(edges)[t - base - 1]);
        } else {
            let last = followed_edge(context, walk)->0;
            let edges = node_edges(graph, chunking_context, context, last.node)->Ok_0;
            assert(next.stack[s] == pending(edges)[s - base - 1]);
        }
    }
}

/// A step of a sound walk that is in order leads to a walk that is in
/// order, where no chunk item refers to itself through others.
pub proof fn lemma_step_keeps_order(
    graph: &AssetGraph,
    chunking_context: &ChunkingContext,
    context: ChunkContentContext,
    entries: Seq<AssetId>,
    rank: spec_fn(ChunkItemId) -> nat,
    walk: Walk,
)
    requires
        is_sound_walk(graph, chunking_context, context, entries, walk),
        is_in_order(graph, chunking_context, context, rank, walk),
        holds_reached_only(graph, chunking_context, context, entries, walk),
        is_ranking(graph, chunking_context, context, entries, rank),
        walk.status is Running,
        has_work(walk),
    ensures
        is_in_order(
            graph,
            chunking_context,
            context,
            rank,
            step(graph, chunking_context, context, walk),
        ),
{
    if step(graph, chunking_context, context, walk).status is Running {
        lemma_step_keeps_done_in_order(graph, chunking_context, context, entries, rank, walk);
        lemma_step_keeps_put_off_in_order(graph, chunking_context, context, entries, rank, walk);
        lemma_step_keeps_ranks_falling(graph, chunking_context, context, entries, rank, walk);
        lemma_step_keeps_keys_held(graph, chunking_context, context, entries, walk);
    }
}

/// The order of the chunk items: where the chunk items that are reached
/// from the entries refer to each other without a cycle, each chunk item
/// that the walk over the content of a chunk hands out comes after every
/// chunk item that it refers to. Returns the place at which the chunk item
/// referred to was handed out.
pub proof fn lemma_chunk_items_follow_their_references(
    graph: &AssetGraph,
    chunking_context: &ChunkingContext,
    context: ChunkContentContext,
    entries: Seq<AssetId>,
    rank: spec_fn(ChunkItemId) -> nat,
    index: int,
    edge: ChunkContentEdge,
) -> (before: int)
    requires
        graph.is_well_formed(),
        entries_have_items(graph, entries),
        is_ranking(graph, chunking_context, context, entries, rank),
        content_walk(graph, chunking_context, context, entries).status is Running,
        0 <= index < content_walk(graph, chunking_context, context, entries).emitted.len(),
        refers_to(
            graph,
            chunking_context,
            context,
            content_walk(graph, chunking_context, context, entries).emitted[index].node,
            edge,
        ),
    ensures
        0 <= before < index,
        content_walk(graph, chunking_context, context, entries).emitted[before] == edge,
{
    let kept = |w: Walk|
        is_sound_walk(graph, chunking_context, context, entries, w) && holds_reached_only(
            graph,
            chunking_context,
            context,
            entries,
            w,
        ) && is_in_order(graph, chunking_context, context, rank, w);
    let begin = start(root_edges(graph, entries), nothing_processed(graph), 0);
    lemma_start_is_sound(graph, chunking_context, context, entries);
    lemma_start_holds_reached_only(graph, chunking_context, context, entries);
    assert(is_in_order(graph, chunking_context, context, rank, begin));
    assert forall|w: Walk| kept(w) && w.status is Running && has_work(w) implies #[trigger] kept(
        step(graph, chunking_context, context, w),
    ) by {
        lemma_step_keeps_sound(graph, chunking_context, context, entries, w);
        lemma_step_keeps_reached_only(graph, chunking_context, context, entries, w);
        lemma_step_keeps_order(graph, chunking_context, context, entries, rank, w);
    }
    lemma_run_keeps(graph, chunking_context, context, begin, kept);
    let end = content_walk(graph, chunking_context, context, entries);
    assert(is_handed_out(end.emitted, index, edge));
    choose|j: int| 0 <= j < index && j < end.emitted.len() && #[trigger] end.emitted[j] == edge
}

/// The chunk items among the first edges of a list are the first chunk items
/// of the list.
pub proof fn lemma_chunk_items_of_prefix(edges: Seq<ChunkContentEdge>, upto: int)
    requires
        0 <= upto <= edges.len(),
    ensures
        chunk_items_of(edges.take(upto)).len() <= chunk_items_of(edges).len(),
        chunk_items_of(edges.take(upto)) == chunk_items_of(edges).take(
            chunk_items_of(edges.take(upto)).len() as int,
        ),
    decreases edges.len(),
{
    let all = chunk_items_of(edges);
    if upto == edges.len() {
        assert(edges.take(upto) =~= edges);
        assert(all.take(all.len() as int) =~= all);
    } else {
        let front = edges.drop_last();
        lemma_chunk_items_of_prefix(front, upto);
        assert(edges.take(upto) =~= front.take(upto));
        let part = chunk_items_of(front.take(upto));
        assert(part =~= all.take(part.len() as int));
    }
}

/// A chunk item among the edges of a list has its place among the chunk
/// items of the list.
pub proof fn lemma_chunk_item_has_its_place(edges: Seq<ChunkContentEdge>, index: int)
    requires
        0 <= index < edges.len(),
        edges[index].node is ChunkItem,
    ensures
        chunk_items_of(edges.take(index)).len() < chunk_items_of(edges).len(),
        chunk_items_of(edges)[chunk_items_of(edges.take(index)).len() as int]
            == edges[index].node->ChunkItem_0,
{
    lemma_chunk_items_of_prefix(edges, index + 1);
    assert(edges.take(index + 1).drop_last() =~= edges.take(index));
    let upto = chunk_items_of(edges.take(index + 1));
    assert(upto[upto.len() - 1] == chunk_items_of(edges).take(upto.len() as int)[upto.len() - 1]);
}

/// Each chunk item of a list of edges is the node of one of the edges.
pub proof fn lemma_chunk_item_comes_from_an_edge(edges: Seq<ChunkContentEdge>, place: int) -> (index:
    int)
    requires
        0 <= place < chunk_items_of(edges).len(),
    ensures
        0 <= index < edges.len(),
        edges[index].node == ChunkContentGraphNode::ChunkItem(chunk_items_of(edges)[place]),
        chunk_items_of(edges.take(index)).len() == place,
    decreases edges.len(),
{
    let front = edges.drop_last();
    if edges.last().node is ChunkItem && place == chunk_items_of(front).len() {
        assert(edges.take(edges.len() - 1) =~= front);
        edges.len() - 1
    } else {
        let index = lemma_chunk_item_comes_from_an_edge(front, place);
        assert(edges.take(index) =~= front.take(index));
        index
    }
}

/// The chunk items of a chunk are sorted: where the chunk items that are
/// reached from the entries refer to each other without a cycle, each chunk
/// item in the content of a chunk comes after every chunk item that it
/// refers to. Returns the place of the chunk item referred to.
pub proof fn lemma_chunk_items_are_sorted(
    graph: &AssetGraph,
    chunking_context: &ChunkingContext,
    context: ChunkContentContext,
    entries: Seq<AssetId>,
    rank: spec_fn(ChunkItemId) -> nat,
    place: int,
    edge: ChunkContentEdge,
) -> (before: int)
    requires
        graph.is_well_formed(),
        entries_have_items(graph, entries),
        is_ranking(graph, chunking_context, context, entries, rank),
        chunk_content_of(graph, chunking_context, context, entries) matches Ok(Some(content))
            && 0 <= place < content.chunk_items.len() && refers_to(
            graph,
            chunking_context,
            context,
            ChunkContentGraphNode::ChunkItem(content.chunk_items[place]),
            edge,
        ),
    ensures
        0 <= before < place,
        chunk_content_of(graph, chunking_context, context, entries) matches Ok(Some(content))
            && content.chunk_items[before] == edge.node->ChunkItem_0,
{
    let end = content_walk(graph, chunking_context, context, entries);
    let index = lemma_chunk_item_comes_from_an_edge(end.emitted, place);
    let found = lemma_chunk_items_follow_their_references(
        graph,
        chunking_context,
        context,
        entries,
        rank,
        index,
        edge,
    );
    lemma_chunk_item_has_its_place(end.emitted, found);
    lemma_chunk_items_of_prefix(end.emitted.take(index), found + 1);
    assert(end.emitted.take(index).take(found + 1) =~= end.emitted.take(found + 1));
    assert(end.emitted.take(found + 1).drop_last() =~= end.emitted.take(found));
    chunk_items_of(end.emitted.take(found)).len() as int
}

} // verus!
