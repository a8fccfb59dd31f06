use crate::availability::AssetId;
use crate::content::{
    chunk_content_of, chunk_items_of, content_walk, entries_have_items, nothing_processed,
    root_edge, root_edges,
};
use crate::context::ChunkingContext;
use crate::graph::{AssetGraph, ChunkItemId};
use crate::laws::{
    held_after, held_before, is_held_at, is_sound_edge, is_sound_walk,
    lemma_held_edges_come_from_held_edges, lemma_held_edges_stay_held,
    lemma_keys_are_handed_out_once, lemma_start_is_sound, lemma_step_keeps_sound,
    lemma_step_shapes_reserve,
};
use crate::node::{ChunkContentContext, ChunkContentEdge, ChunkContentGraphNode};
use crate::topology::{
    is_held, keys_are_held, lemma_chunk_item_comes_from_an_edge, lemma_chunk_item_has_its_place,
    lemma_key_names_referred_edge, lemma_referred_edges_are_placed, lemma_step_keeps_keys_held,
    refers_to,
};
use crate::visit::{is_processed, node_edges};
use crate::walk::{
    base_of, followed_edge, frame_edge, has_work, leaves_reserve, left_place,
    lemma_edge_has_a_place, lemma_run_keeps, lemma_run_leaves_no_work, lemma_step_shape, pending,
    start, step, Frame, Walk,
};
use vstd::prelude::*;

verus! {

/// Whether the edges lead from an entry of the chunk from chunk item to
/// chunk item: the first is the root edge of an entry, and each of the
/// others leaves the chunk item that the edge before it leads to.
pub open spec fn is_path(
    graph: &AssetGraph,
    chunking_context: &ChunkingContext,
    context: ChunkContentContext,
    entries: Seq<AssetId>,
    path: Seq<ChunkContentEdge>,
) -> bool {
    &&& path.len() > 0
    &&& exists|k: int| 0 <= k < entries.len() && path[0] == root_edge(graph, #[trigger] entries[k])
    &&& forall|i: int|
        0 <= i < path.len() - 1 ==> refers_to(
            graph,
            chunking_context,
            context,
            (#[trigger] path[i]).node,
            path[i + 1],
        )
}

/// Whether the edge to a chunk item is reached from the entries of the
/// chunk: a path leads to it.
pub open spec fn is_reached(
    graph: &AssetGraph,
    chunking_context: &ChunkingContext,
    context: ChunkContentContext,
    entries: Seq<AssetId>,
    edge: ChunkContentEdge,
) -> bool {
    exists|path: Seq<ChunkContentEdge>| #[trigger]
        is_path(graph, chunking_context, context, entries, path) && path.last() == edge
}

/// The root edge of an entry is reached.
pub proof fn lemma_entries_are_reached(
    graph: &AssetGraph,
    chunking_context: &ChunkingContext,
    context: ChunkContentContext,
    entries: Seq<AssetId>,
    index: int,
)
    requires
        0 <= index < entries.len(),
    ensures
        is_reached(graph, chunking_context, context, entries, root_edge(graph, entries[index])),
{
    let path = seq![root_edge(graph, entries[index])];
    assert(path[0] == root_edge(graph, entries[index]));
    assert(is_path(graph, chunking_context, context, entries, path));
    assert(path.last() == root_edge(graph, entries[index]));
}

/// What a reached chunk item refers to is reached.
pub proof fn lemma_reach_goes_on(
    graph: &AssetGraph,
    chunking_context: &ChunkingContext,
    context: ChunkContentContext,
    entries: Seq<AssetId>,
    from: ChunkContentEdge,
    edge: ChunkContentEdge,
)
    requires
        is_reached(graph, chunking_context, context, entries, from),
        refers_to(graph, chunking_context, context, from.node, edge),
    ensures
        is_reached(graph, chunking_context, context, entries, edge),
{
    let path = choose|path: Seq<ChunkContentEdge>| #[trigger]
        is_path(graph, chunking_context, context, entries, path) && path.last() == from;
    let longer = path.push(edge);
    assert(longer[0] == path[0]);
    assert forall|i: int| 0 <= i < longer.len() - 1 implies refers_to(
        graph,
        chunking_context,
        context,
        (#[trigger] longer[i]).node,
        longer[i + 1],
    ) by {
        if i < path.len() - 1 {
            assert(longer[i] == path[i]);
            assert(longer[i + 1] == path[i + 1]);
        }
    }
    assert(is_path(graph, chunking_context, context, entries, longer));
    assert(longer.last() == edge);
}

/// Whether every chunk item that the walk holds is reached.
pub open spec fn holds_reached_only(
    graph: &AssetGraph,
    chunking_context: &ChunkingContext,
    context: ChunkContentContext,
    entries: Seq<AssetId>,
    walk: Walk,
) -> bool {
    &&& forall|i: int|
        0 <= i < walk.roots.len() && (#[trigger] walk.roots[i]).node is ChunkItem ==> is_reached(
            graph,
            chunking_context,
            context,
            entries,
            walk.roots[i],
        )
    &&& forall|i: int|
        0 <= i < walk.reserved.len() ==> is_reached(
            graph,
            chunking_context,
            context,
            entries,
            #[trigger] walk.reserved[i],
        )
    &&& forall|i: int|
        0 <= i < walk.stack.len() && frame_edge(#[trigger] walk.stack[i]).node is ChunkItem
            ==> is_reached(graph, chunking_context, context, entries, frame_edge(walk.stack[i]))
    &&& forall|i: int|
        0 <= i < walk.emitted.len() && (#[trigger] walk.emitted[i]).node is ChunkItem
            ==> is_reached(graph, chunking_context, context, entries, walk.emitted[i])
}

/// A step of a walk that holds reached chunk items only leads to such a
/// walk.
pub proof fn lemma_step_keeps_reached_only(
    graph: &AssetGraph,
    chunking_context: &ChunkingContext,
    context: ChunkContentContext,
    entries: Seq<AssetId>,
    walk: Walk,
)
    requires
        is_sound_walk(graph, chunking_context, context, entries, walk),
        holds_reached_only(graph, chunking_context, context, entries, walk),
        walk.status is Running,
        has_work(walk),
    ensures
        holds_reached_only(
            graph,
            chunking_context,
            context,
            entries,
            step(graph, chunking_context, context, walk),
        ),
{
    let next = step(graph, chunking_context, context, walk);
    let base = base_of(walk);
    lemma_step_shape(graph, chunking_context, context, walk);
    lemma_step_shapes_reserve(graph, chunking_context, context, walk);
    assert forall|i: int|
        0 <= i < next.roots.len() && (#[trigger] next.roots[i]).node is ChunkItem implies is_reached(
        graph,
        chunking_context,
        context,
        entries,
        next.roots[i],
    ) by {
        assert(next.roots[i] == walk.roots[i + 1]);
    }
    assert forall|i: int| 0 <= i < next.reserved.len() implies is_reached(
        graph,
        chunking_context,
        context,
        entries,
        #[trigger] next.reserved[i],
    ) by {
        if leaves_reserve(context, walk) {
            if i < left_place(walk) {
                assert(next.reserved[i] == walk.reserved[i]);
            } else {
                assert(next.reserved[i] == walk.reserved[i + 1]);
            }
        } else if i < walk.reserved.len() {
            assert(next.reserved[i] == walk.reserved[i]);
        } else {
            assert(next.reserved[i] == walk.roots[0]);
        }
    }
    assert forall|i: int|
        0 <= i < next.stack.len() && frame_edge(
            #[trigger] next.stack[i],
        ).node is ChunkItem implies is_reached(
        graph,
        chunking_context,
        context,
        entries,
        frame_edge(next.stack[i]),
    ) by {
        if i < base {
            assert(next.stack[i] == walk.stack[i]);
        } else {
            let last = followed_edge(context, walk)->0;
            assert(is_reached(graph, chunking_context, context, entries, last)) by {
                if walk.stack.len() > 0 {
                    assert(frame_edge(walk.stack[base]) == last);
                } else {
                    assert(walk.reserved[0] == last);
                }
            }
            if i > base {
                let edges = node_edges(graph, chunking_context, context, last.node)->Ok_0;
                let m = edges.len() - 1 - (i - base - 1);
                assert(next.stack[i] == pending(edges)[i - base - 1]);
                assert(frame_edge(next.stack[i]) == edges[m]);
                assert(last.node is ChunkItem) by {
                    if walk.stack.len() == 0 {
                        assert(walk.reserved[0].node is ChunkItem);
                    }
                }
                assert(refers_to(graph, chunking_context, context, last.node, edges[m]));
                lemma_reach_goes_on(graph, chunking_context, context, entries, last, edges[m]);
            }
        }
    }
    assert forall|i: int|
        0 <= i < next.emitted.len() && (#[trigger] next.emitted[i]).node is ChunkItem implies is_reached(
        graph,
        chunking_context,
        context,
        entries,
        next.emitted[i],
    ) by {
        if i < walk.emitted.len() {
            assert(next.emitted[i] == walk.emitted[i]);
        } else if walk.roots.len() > 0 {
            assert(next.emitted[i] == walk.roots[0]);
        } else {
            assert(next.emitted[i] == frame_edge(walk.stack[base]));
        }
    }
}

/// The walk over the content of a chunk starts with reached chunk items
/// only.
pub proof fn lemma_start_holds_reached_only(
    graph: &AssetGraph,
    chunking_context: &ChunkingContext,
    context: ChunkContentContext,
    entries: Seq<AssetId>,
)
    ensures
        holds_reached_only(
            graph,
            chunking_context,
            context,
            entries,
            start(root_edges(graph, entries), nothing_processed(graph), 0),
        ),
{
    let begin = start(root_edges(graph, entries), nothing_processed(graph), 0);
    assert forall|i: int| 0 <= i < begin.roots.len() implies is_reached(
        graph,
        chunking_context,
        context,
        entries,
        #[trigger] begin.roots[i],
    ) by {
        assert(begin.roots[i] == root_edge(graph, entries[i]));
        lemma_entries_are_reached(graph, chunking_context, context, entries, i);
    }
}

/// Only what is reached is handed out: each chunk item that the walk over
/// the content of a chunk hands out is reached from the entries.
pub proof fn lemma_handed_out_chunk_items_are_reached(
    graph: &AssetGraph,
    chunking_context: &ChunkingContext,
    context: ChunkContentContext,
    entries: Seq<AssetId>,
    index: int,
)
    requires
        graph.is_well_formed(),
        entries_have_items(graph, entries),
        0 <= index < content_walk(graph, chunking_context, context, entries).emitted.len(),
        content_walk(graph, chunking_context, context, entries).emitted[index].node is ChunkItem,
    ensures
        is_reached(
            graph,
            chunking_context,
            context,
            entries,
            content_walk(graph, chunking_context, context, entries).emitted[index],
        ),
{
    let kept = |w: Walk|
        is_sound_walk(graph, chunking_context, context, entries, w) && holds_reached_only(
            graph,
            chunking_context,
            context,
            entries,
            w,
        );
    lemma_start_is_sound(graph, chunking_context, context, entries);
    lemma_start_holds_reached_only(graph, chunking_context, context, entries);
    assert forall|w: Walk| kept(w) && w.status is Running && has_work(w) implies #[trigger] kept(
        step(graph, chunking_context, context, w),
    ) by {
        lemma_step_keeps_sound(graph, chunking_context, context, entries, w);
        lemma_step_keeps_reached_only(graph, chunking_context, context, entries, w);
    }
    lemma_run_keeps(
        graph,
        chunking_context,
        context,
        start(root_edges(graph, entries), nothing_processed(graph), 0),
        kept,
    );
}

/// Whether the walk holds the edge: it has handed it out, reserved it or
/// put it off.
pub open spec fn holds(walk: Walk, edge: ChunkContentEdge) -> bool {
    exists|kind: int, index: int| #[trigger] is_held_at(walk, kind, index, edge)
}

/// Whether the walk has the edge in hand: it holds it, or the edge is on
/// the stack to be decided on.
pub open spec fn is_accounted(walk: Walk, edge: ChunkContentEdge) -> bool {
    holds(walk, edge) || walk.stack.contains(Frame::Visit(edge))
}

/// Whether the edge is the root edge of an entry.
pub open spec fn is_root_edge(
    graph: &AssetGraph,
    entries: Seq<AssetId>,
    edge: ChunkContentEdge,
) -> bool {
    exists|k: int| 0 <= k < entries.len() && edge == root_edge(graph, #[trigger] entries[k])
}

/// Whether a walk that is going on leaves nothing out.
///
/// Every recorded key is held. The root edge of every entry is still to be
/// decided on or is held. Every edge to a chunk item that leaves a chunk
/// item which the walk has handed out or put off is in hand. The root edges
/// are decided on before anything else: as long as one of them is left,
/// nothing but root edges is held.
pub open spec fn leaves_nothing_out(
    graph: &AssetGraph,
    chunking_context: &ChunkingContext,
    context: ChunkContentContext,
    entries: Seq<AssetId>,
    walk: Walk,
) -> bool {
    walk.status is Running ==> {
        &&& keys_are_held(walk)
        &&& forall|k: int|
            0 <= k < entries.len() ==> walk.roots.contains(root_edge(graph, #[trigger] entries[k]))
                || holds(walk, root_edge(graph, entries[k]))
        &&& forall|kind: int, index: int, from: ChunkContentEdge, edge: ChunkContentEdge|
            #![trigger is_held_at(walk, kind, index, from), refers_to(graph, chunking_context, context, from.node, edge)]
            is_held_at(walk, kind, index, from) && kind != 1 && refers_to(
                graph,
                chunking_context,
                context,
                from.node,
                edge,
            ) ==> is_accounted(walk, edge)
        &&& walk.roots.len() > 0 ==> walk.stack.len() == 0 && walk.emitted.len() == 0
        &&& forall|i: int|
            0 <= i < walk.roots.len() ==> is_root_edge(graph, entries, #[trigger] walk.roots[i])
        &&& forall|i: int|
            0 <= i < walk.reserved.len() ==> is_root_edge(
                graph,
                entries,
                #[trigger] walk.reserved[i],
            )
    }
}

/// A step keeps in hand an edge to a chunk item that leaves a chunk item
/// and that the walk has in hand.
proof fn lemma_step_keeps_accounted(
    graph: &AssetGraph,
    chunking_context: &ChunkingContext,
    context: ChunkContentContext,
    entries: Seq<AssetId>,
    walk: Walk,
    node: ChunkContentGraphNode,
    edge: ChunkContentEdge,
)
    requires
        is_sound_walk(graph, chunking_context, context, entries, walk),
        keys_are_held(walk),
        walk.status is Running,
        has_work(walk),
        step(graph, chunking_context, context, walk).status is Running,
        refers_to(graph, chunking_context, context, node, edge),
        is_accounted(walk, edge),
    ensures
        is_accounted(step(graph, chunking_context, context, walk), edge),
{
    let next = step(graph, chunking_context, context, walk);
    let base = base_of(walk);
    lemma_step_shape(graph, chunking_context, context, walk);
    lemma_step_shapes_reserve(graph, chunking_context, context, walk);
    if holds(walk, edge) {
        let (kind, index) = choose|kind: int, index: int| #[trigger]
            is_held_at(walk, kind, index, edge);
        lemma_held_edges_stay_held(graph, chunking_context, context, walk, kind, index, edge);
        let after = held_after(context, walk, kind, index);
        assert(is_held_at(next, after.0, after.1, edge));
    } else {
        let t = choose|t: int| 0 <= t < walk.stack.len() && walk.stack[t] == Frame::Visit(edge);
        if t < base {
            assert(next.stack[t] == Frame::Visit(edge));
        } else if next.stack.len() > base {
            if leaves_reserve(context, walk) {
                lemma_edge_has_a_place(
                    walk.reserved,
                    edge,
                    choose|i: int| 0 <= i < walk.reserved.len() && walk.reserved[i] == edge,
                );
            }
            assert(is_held_at(next, 2, base, edge));
        } else if next.emitted.len() > walk.emitted.len() {
            assert(is_held_at(next, 0, walk.emitted.len() as int, edge));
        } else {
            // The edge on top was dropped: its key has been recorded, so an
            // edge of that key is held, and that edge is this one.
            let key = edge.key->0;
            lemma_referred_edges_are_placed(graph, chunking_context, context, node, edge);
            assert(is_processed(walk.processed, key.0, key.1));
            assert(is_held(walk, key));
            let (kind, index, held) = choose|kind: int, index: int, held: ChunkContentEdge| #[trigger]
                is_held_at(walk, kind, index, held) && held.key == Some(key);
            assert(is_sound_edge(graph, chunking_context, context, entries, held)) by {
                if kind == 2 {
                    assert(frame_edge(walk.stack[index]) == held);
                }
            }
            lemma_key_names_referred_edge(
                graph,
                chunking_context,
                context,
                entries,
                node,
                edge,
                held,
            );
            assert(holds(walk, edge));
        }
    }
}

/// A step of a sound walk that leaves nothing out leads to such a walk.
proof fn lemma_step_leaves_nothing_out(
    graph: &AssetGraph,
    chunking_context: &ChunkingContext,
    context: ChunkContentContext,
    entries: Seq<AssetId>,
    walk: Walk,
)
    requires
        entries_have_items(graph, entries),
        is_sound_walk(graph, chunking_context, context, entries, walk),
        leaves_nothing_out(graph, chunking_context, context, entries, walk),
        walk.status is Running,
        has_work(walk),
    ensures
        leaves_nothing_out(
            graph,
            chunking_context,
            context,
            entries,
            step(graph, chunking_context, context, walk),
        ),
{
    let next = step(graph, chunking_context, context, walk);
    if next.status is Running {
        let base = base_of(walk);
        let done = walk.emitted.len() as int;
        lemma_step_shape(graph, chunking_context, context, walk);
        lemma_step_shapes_reserve(graph, chunking_context, context, walk);
        lemma_step_keeps_keys_held(graph, chunking_context, context, entries, walk);
        assert forall|i: int| 0 <= i < next.roots.len() implies is_root_edge(
            graph,
            entries,
            #[trigger] next.roots[i],
        ) by {
            assert(next.roots[i] == walk.roots[i + 1]);
        }
        assert forall|i: int| 0 <= i < next.reserved.len() implies is_root_edge(
            graph,
            entries,
            #[trigger] next.reserved[i],
        ) by {
            if leaves_reserve(context, walk) {
                if i < left_place(walk) {
                    assert(next.reserved[i] == walk.reserved[i]);
                } else {
                    assert(next.reserved[i] == walk.reserved[i + 1]);
                }
            } else if i < walk.reserved.len() {
                assert(next.reserved[i] == walk.reserved[i]);
            } else {
                assert(next.reserved[i] == walk.roots[0]);
            }
        }
        if walk.roots.len() > 0 {
            // A root edge leads to a chunk item, which is reserved when it
            // is passed for the first time and skipped otherwise.
            assert(is_root_edge(graph, entries, walk.roots[0]));
        }
        assert forall|k: int| 0 <= k < entries.len() implies next.roots.contains(
            root_edge(graph, #[trigger] entries[k]),
        ) || holds(next, root_edge(graph, entries[k])) by {
            let root = root_edge(graph, entries[k]);
            if holds(walk, root) {
                let (kind, index) = choose|kind: int, index: int| #[trigger]
                    is_held_at(walk, kind, index, root);
                lemma_held_edges_stay_held(
                    graph,
                    chunking_context,
                    context,
                    walk,
                    kind,
                    index,
                    root,
                );
                let after = held_after(context, walk, kind, index);
                assert(is_held_at(next, after.0, after.1, root));
            } else {
                let i = choose|i: int| 0 <= i < walk.roots.len() && walk.roots[i] == root;
                if i > 0 {
                    assert(next.roots[i - 1] == root);
                } else if next.reserved.len() > walk.reserved.len() {
                    assert(is_held_at(next, 1, walk.reserved.len() as int, root));
                } else {
                    // The root edge was skipped: its key has been recorded,
                    // so a root edge of that key is reserved, and that edge
                    // is this one.
                    let key = root.key->0;
                    assert(is_processed(walk.processed, key.0, key.1));
                    assert(is_held(walk, key));
                    let (kind, index, held) = choose|kind: int, index: int, held: ChunkContentEdge| #[trigger]
                        is_held_at(walk, kind, index, held) && held.key == Some(key);
                    assert(kind == 1);
                    assert(is_root_edge(graph, entries, walk.reserved[index]));
                    assert(held == root);
                    assert(holds(walk, root));
                }
            }
        }
        assert forall|kind: int, index: int, from: ChunkContentEdge, edge: ChunkContentEdge|
            #![trigger is_held_at(next, kind, index, from), refers_to(graph, chunking_context, context, from.node, edge)]
            is_held_at(next, kind, index, from) && kind != 1 && refers_to(
                graph,
                chunking_context,
                context,
                from.node,
                edge,
            ) implies is_accounted(next, edge) by {
            lemma_held_edges_come_from_held_edges(
                graph,
                chunking_context,
                context,
                entries,
                walk,
                kind,
                index,
                from,
            );
            let before = held_before(context, walk, kind, index);
            if before.0 == 0 || before.0 == 2 {
                assert(is_held_at(walk, before.0, before.1, from));
                lemma_step_keeps_accounted(
                    graph,
                    chunking_context,
                    context,
                    entries,
                    walk,
                    from.node,
                    edge,
                );
            } else {
                // The chunk item has just been put off: what it refers to
                // lies above it.
                assert(kind == 2 && index == base);
                assert(followed_edge(context, walk) == Some(from));
                let edges = node_edges(graph, chunking_context, context, from.node)->Ok_0;
                let m = choose|m: int| 0 <= m < edges.len() && edges[m] == edge;
                let t = base + 1 + (edges.len() - 1 - m);
                assert(next.stack[t] == pending(edges)[t - base - 1]);
                assert(next.stack[t] == Frame::Visit(edge));
            }
        }
    }
}

/// Every edge of a path is handed out by a walk that has ended and leaves
/// nothing out.
proof fn lemma_paths_are_handed_out(
    graph: &AssetGraph,
    chunking_context: &ChunkingContext,
    context: ChunkContentContext,
    entries: Seq<AssetId>,
    end: Walk,
    path: Seq<ChunkContentEdge>,
    upto: int,
)
    requires
        end.status is Running,
        !has_work(end),
        leaves_nothing_out(graph, chunking_context, context, entries, end),
        is_path(graph, chunking_context, context, entries, path),
        0 <= upto < path.len(),
    ensures
        end.emitted.contains(path[upto]),
    decreases upto,
{
    if upto == 0 {
        let k = choose|k: int|
            0 <= k < entries.len() && path[0] == root_edge(graph, #[trigger] entries[k]);
        assert(holds(end, root_edge(graph, entries[k])));
        let (kind, index) = choose|kind: int, index: int| #[trigger]
            is_held_at(end, kind, index, path[0]);
        assert(end.emitted[index] == path[0]);
    } else {
        lemma_paths_are_handed_out(
            graph,
            chunking_context,
            context,
            entries,
            end,
            path,
            upto - 1,
        );
        let i = choose|i: int| 0 <= i < end.emitted.len() && end.emitted[i] == path[upto - 1];
        assert(is_held_at(end, 0, i, path[upto - 1]));
        assert(refers_to(graph, chunking_context, context, path[upto - 1].node, path[upto]));
        assert(is_accounted(end, path[upto]));
        let (kind, index) = choose|kind: int, index: int| #[trigger]
            is_held_at(end, kind, index, path[upto]);
        assert(end.emitted[index] == path[upto]);
    }
}

/// Nothing that is reached is left out: the walk over the content of a
/// chunk hands out every chunk item that is reached from the entries, and
/// hands it out once. Returns the place at which it is handed out.
pub proof fn lemma_reached_chunk_items_are_handed_out_once(
    graph: &AssetGraph,
    chunking_context: &ChunkingContext,
    context: ChunkContentContext,
    entries: Seq<AssetId>,
    edge: ChunkContentEdge,
) -> (index: int)
    requires
        graph.is_well_formed(),
        entries_have_items(graph, entries),
        content_walk(graph, chunking_context, context, entries).status is Running,
        is_reached(graph, chunking_context, context, entries, edge),
    ensures
        0 <= index < content_walk(graph, chunking_context, context, entries).emitted.len(),
        content_walk(graph, chunking_context, context, entries).emitted[index] == edge,
        forall|other: int|
            0 <= other < content_walk(graph, chunking_context, context, entries).emitted.len()
                && other != index ==> content_walk(
                graph,
                chunking_context,
                context,
                entries,
            ).emitted[other] != edge,
{
    let begin = start(root_edges(graph, entries), nothing_processed(graph), 0);
    let end = content_walk(graph, chunking_context, context, entries);
    let kept = |w: Walk|
        is_sound_walk(graph, chunking_context, context, entries, w) && leaves_nothing_out(
            graph,
            chunking_context,
            context,
            entries,
            w,
        );
    lemma_start_is_sound(graph, chunking_context, context, entries);
    assert forall|k: int| 0 <= k < entries.len() implies begin.roots.contains(
        root_edge(graph, #[trigger] entries[k]),
    ) by {
        assert(begin.roots[k] == root_edge(graph, entries[k]));
    }
    assert forall|i: int| 0 <= i < begin.roots.len() implies is_root_edge(
        graph,
        entries,
        #[trigger] begin.roots[i],
    ) by {
        assert(begin.roots[i] == root_edge(graph, entries[i]));
    }
    assert(leaves_nothing_out(graph, chunking_context, context, entries, begin));
    assert forall|w: Walk| kept(w) && w.status is Running && has_work(w) implies #[trigger] kept(
        step(graph, chunking_context, context, w),
    ) by {
        lemma_step_keeps_sound(graph, chunking_context, context, entries, w);
        lemma_step_leaves_nothing_out(graph, chunking_context, context, entries, w);
    }
    lemma_run_keeps(graph, chunking_context, context, begin, kept);
    lemma_run_leaves_no_work(graph, chunking_context, context, begin);
    let path = choose|path: Seq<ChunkContentEdge>| #[trigger]
        is_path(graph, chunking_context, context, entries, path) && path.last() == edge;
    lemma_paths_are_handed_out(
        graph,
        chunking_context,
        context,
        entries,
        end,
        path,
        path.len() - 1,
    );
    let index = choose|i: int| 0 <= i < end.emitted.len() && end.emitted[i] == edge;
    assert(is_sound_edge(graph, chunking_context, context, entries, end.emitted[index]));
    assert(edge.node is ChunkItem) by {
        if path.len() > 1 {
            assert(refers_to(
                graph,
                chunking_context,
                context,
                path[path.len() - 2].node,
                path[path.len() - 2 + 1],
            ));
        }
    }
    assert forall|other: int| 0 <= other < end.emitted.len() && other != index implies end.emitted[other]
        != edge by {
        assert(edge.key is Some);
        if other < index {
            if end.emitted[other].key is Some {
                lemma_keys_are_handed_out_once(
                    graph,
                    chunking_context,
                    context,
                    entries,
                    other,
                    index,
                );
            }
        } else {
            lemma_keys_are_handed_out_once(
                graph,
                chunking_context,
                context,
                entries,
                index,
                other,
            );
        }
    }
    index
}

/// The chunk items of a chunk are exactly those that are reached from its
/// entries.
pub proof fn lemma_chunk_items_are_the_reached(
    graph: &AssetGraph,
    chunking_context: &ChunkingContext,
    context: ChunkContentContext,
    entries: Seq<AssetId>,
    item: ChunkItemId,
)
    requires
        graph.is_well_formed(),
        entries_have_items(graph, entries),
        chunk_content_of(graph, chunking_context, context, entries) matches Ok(Some(_)),
    ensures
        chunk_content_of(graph, chunking_context, context, entries) matches Ok(Some(content))
            && (content.chunk_items.contains(item) <==> exists|edge: ChunkContentEdge| #[trigger]
            is_reached(graph, chunking_context, context, entries, edge) && edge.node
                == ChunkContentGraphNode::ChunkItem(item)),
{
    let end = content_walk(graph, chunking_context, context, entries);
    let items = chunk_items_of(end.emitted);
    if items.contains(item) {
        let place = choose|place: int| 0 <= place < items.len() && items[place] == item;
        let index = lemma_chunk_item_comes_from_an_edge(end.emitted, place);
        lemma_handed_out_chunk_items_are_reached(
            graph,
            chunking_context,
            context,
            entries,
            index,
        );
        assert(is_reached(graph, chunking_context, context, entries, end.emitted[index]));
    }
    if exists|edge: ChunkContentEdge| #[trigger]
        is_reached(graph, chunking_context, context, entries, edge) && edge.node
            == ChunkContentGraphNode::ChunkItem(item) {
        let edge = choose|edge: ChunkContentEdge| #[trigger]
            is_reached(graph, chunking_context, context, entries, edge) && edge.node
                == ChunkContentGraphNode::ChunkItem(item);
        let index = lemma_reached_chunk_items_are_handed_out_once(
            graph,
            chunking_context,
            context,
            entries,
            edge,
        );
        lemma_chunk_item_has_its_place(end.emitted, index);
    }
}

} // verus!
