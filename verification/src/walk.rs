use crate::availability::AssetId;
use crate::chunking_type::ChunkingType;
use crate::context::ChunkingContext;
use crate::graph::AssetGraph;
use crate::laws::{is_sound_edge, lemma_references_edges_are_sound};
use crate::node::{ChunkContentContext, ChunkContentEdge, ChunkContentGraphNode, ChunkingError};
use crate::visit::{
    count_after, decision, dedup_key, is_fresh, is_processed, lemma_recording_uses_up_a_key,
    node_edges, processed_after, unprocessed, ChunkContentVisit, ProcessedFlags,
    VisitControlFlow,
};
use vstd::prelude::*;

verus! {

/// One piece of work that the walk has put off.
#[derive(Clone, Copy, Debug, PartialEq, Eq)]
pub enum Frame {
    /// An edge that is still to be decided on.
    Visit(ChunkContentEdge),
    /// A chunk item whose own edges are being followed: it is handed out
    /// once all of them are done with.
    Emit(ChunkContentEdge),
}

/// Whether a walk is still going on.
#[derive(Clone, Copy, Debug, PartialEq, Eq, Structural)]
pub enum WalkStatus {
    Running,
    /// The walk was given up because the chunk grew too large.
    Aborted,
    /// The walk met an error.
    Failed(ChunkingError),
}

/// The state of a walk over the content graph of one chunk.
pub struct Walk {
    /// The root edges that are still to be decided on, in their order.
    pub roots: Seq<ChunkContentEdge>,
    /// The root edges to chunk items that have been decided on and whose
    /// own edges are still to be followed, in their order.
    pub reserved: Seq<ChunkContentEdge>,
    /// The work that is put off; the last frame comes next.
    pub stack: Seq<Frame>,
    /// The keys under which edges have been passed.
    pub processed: Seq<ProcessedFlags>,
    /// The number of chunk items that have been passed.
    pub chunk_items_count: usize,
    /// The edges that have been handed out, in their order.
    pub emitted: Seq<ChunkContentEdge>,
    pub status: WalkStatus,
}

/// The edge of a frame.
pub open spec fn frame_edge(frame: Frame) -> ChunkContentEdge {
    match frame {
        Frame::Visit(edge) => edge,
        Frame::Emit(edge) => edge,
    }
}

/// Whether an edge is one that a walk over the graph can start from: its
/// key, if it has one, names an asset of the graph, and an edge without a
/// key does not lead to a chunk item.
pub open spec fn is_orderly_edge(graph: &AssetGraph, edge: ChunkContentEdge) -> bool {
    match edge.key {
        Some((asset, _)) => graph.has_asset(asset),
        None => !(edge.node is ChunkItem),
    }
}

/// The frames for a list of edges that are all still to be decided on. The
/// first edge comes to lie on top.
pub open spec fn pending(edges: Seq<ChunkContentEdge>) -> Seq<Frame> {
    Seq::new(edges.len(), |i: int| Frame::Visit(edges[edges.len() - 1 - i]))
}

/// The state in which a walk over the given root edges starts.
pub open spec fn start(
    root_edges: Seq<ChunkContentEdge>,
    processed: Seq<ProcessedFlags>,
    chunk_items_count: usize,
) -> Walk {
    Walk {
        roots: root_edges,
        reserved: Seq::empty(),
        stack: Seq::empty(),
        processed,
        chunk_items_count,
        emitted: Seq::empty(),
        status: WalkStatus::Running,
    }
}

/// Whether an edge that is decided on leads to a chunk item that is passed
/// for the first time.
pub open spec fn expands(processed: Seq<ProcessedFlags>, edge: ChunkContentEdge) -> bool {
    is_fresh(processed, edge) && edge.node is ChunkItem
}

/// Whether `index` is the first place of the edge in the list.
pub open spec fn is_place_of(
    list: Seq<ChunkContentEdge>,
    edge: ChunkContentEdge,
    index: int,
) -> bool {
    &&& 0 <= index < list.len()
    &&& list[index] == edge
    &&& forall|j: int| 0 <= j < index ==> #[trigger] list[j] != edge
}

/// The first place of the edge in the list.
pub open spec fn place_of(list: Seq<ChunkContentEdge>, edge: ChunkContentEdge) -> int {
    choose|i: int| is_place_of(list, edge, i)
}

/// The first place of an edge in a list is the only one that is first.
pub proof fn lemma_place_is_unique(
    list: Seq<ChunkContentEdge>,
    edge: ChunkContentEdge,
    index: int,
)
    requires
        is_place_of(list, edge, index),
    ensures
        index == place_of(list, edge),
{
    let chosen = place_of(list, edge);
    assert(is_place_of(list, edge, chosen));
    if chosen < index {
        assert(list[chosen] != edge);
    }
    if index < chosen {
        assert(list[index] != edge);
    }
}

/// An edge of a list has a first place in it.
pub proof fn lemma_edge_has_a_place(list: Seq<ChunkContentEdge>, edge: ChunkContentEdge, upto: int)
    requires
        0 <= upto < list.len(),
        list[upto] == edge,
    ensures
        is_place_of(list, edge, place_of(list, edge)),
    decreases upto,
{
    if forall|j: int| 0 <= j < upto ==> #[trigger] list[j] != edge {
        assert(is_place_of(list, edge, upto));
    } else {
        let j = choose|j: int| 0 <= j < upto && #[trigger] list[j] == edge;
        lemma_edge_has_a_place(list, edge, j);
    }
}

/// The state after the edges that leave the chunk item behind `edge` have
/// been looked up: the chunk item is put off until they are done with, and
/// they come next, in their order. Where they cannot be had, the walk
/// fails.
pub open spec fn follow(
    graph: &AssetGraph,
    chunking_context: &ChunkingContext,
    context: ChunkContentContext,
    walk: Walk,
    edge: ChunkContentEdge,
) -> Walk {
    match node_edges(graph, chunking_context, context, edge.node) {
        Err(error) => Walk { status: WalkStatus::Failed(error), ..walk },
        Ok(edges) => Walk { stack: walk.stack.push(Frame::Emit(edge)) + pending(edges), ..walk },
    }
}

/// The state after the first of the root edges has been decided on. If it
/// is followed and leads to a chunk item that is passed for the first
/// time, the chunk item is reserved: its own edges are followed once all
/// root edges are decided on. If it is followed and leads elsewhere, the
/// node is handed out at once.
pub open spec fn decide_root(context: ChunkContentContext, walk: Walk) -> Walk
    recommends
        walk.roots.len() > 0,
{
    let edge = walk.roots[0];
    let decided = Walk {
        roots: walk.roots.drop_first(),
        processed: processed_after(walk.processed, edge),
        chunk_items_count: count_after(walk.processed, walk.chunk_items_count, edge),
        ..walk
    };
    match decision(context.split, walk.processed, walk.chunk_items_count, edge) {
        VisitControlFlow::Skip(_) => decided,
        VisitControlFlow::Abort => Walk { status: WalkStatus::Aborted, ..decided },
        VisitControlFlow::Continue(_) => if expands(walk.processed, edge) {
            Walk { reserved: walk.reserved.push(edge), ..decided }
        } else {
            Walk { emitted: walk.emitted.push(edge), ..decided }
        },
    }
}

/// The state after the piece of work on top of the stack has been done.
///
/// A chunk item that is due is handed out. An edge that is due is decided
/// on. If it is followed and leads to a chunk item that is passed for the
/// first time, the edges that leave the chunk item are followed. If it is
/// followed and leads elsewhere, the node is handed out at once. If it is
/// skipped, it is dropped, unless it is one of the reserved root edges:
/// then it leaves the reserve, and the edges that leave its chunk item are
/// followed here.
pub open spec fn work(
    graph: &AssetGraph,
    chunking_context: &ChunkingContext,
    context: ChunkContentContext,
    walk: Walk,
) -> Walk
    recommends
        walk.stack.len() > 0,
{
    let popped = Walk { stack: walk.stack.drop_last(), ..walk };
    match walk.stack.last() {
        Frame::Emit(edge) => Walk { emitted: walk.emitted.push(edge), ..popped },
        Frame::Visit(edge) => {
            let visited = Walk {
                processed: processed_after(walk.processed, edge),
                chunk_items_count: count_after(walk.processed, walk.chunk_items_count, edge),
                ..popped
            };
            match decision(context.split, walk.processed, walk.chunk_items_count, edge) {
                VisitControlFlow::Skip(_) => if walk.reserved.contains(edge) {
                    follow(
                        graph,
                        chunking_context,
                        context,
                        Walk {
                            reserved: walk.reserved.remove(place_of(walk.reserved, edge)),
                            ..visited
                        },
                        edge,
                    )
                } else {
                    visited
                },
                VisitControlFlow::Abort => Walk { status: WalkStatus::Aborted, ..visited },
                VisitControlFlow::Continue(_) => if expands(walk.processed, edge) {
                    follow(graph, chunking_context, context, visited, edge)
                } else {
                    Walk { emitted: walk.emitted.push(edge), ..visited }
                },
            }
        },
    }
}

/// Whether anything is left to do.
pub open spec fn has_work(walk: Walk) -> bool {
    walk.roots.len() > 0 || walk.stack.len() > 0 || walk.reserved.len() > 0
}

/// The state after the next step.
///
/// As long as there are root edges to decide on, the first of them is
/// decided on. After that, the work on the stack is done. When the stack is
/// empty, the edges of the first reserved chunk item are followed.
pub open spec fn step(
    graph: &AssetGraph,
    chunking_context: &ChunkingContext,
    context: ChunkContentContext,
    walk: Walk,
) -> Walk
    recommends
        has_work(walk),
{
    if walk.roots.len() > 0 {
        decide_root(context, walk)
    } else if walk.stack.len() > 0 {
        work(graph, chunking_context, context, walk)
    } else {
        follow(
            graph,
            chunking_context,
            context,
            Walk { reserved: walk.reserved.drop_first(), ..walk },
            walk.reserved[0],
        )
    }
}

/// The state in which a walk ends: the walk goes on step by step until no
/// work is left, or until it is given up or fails.
pub open spec fn run(
    graph: &AssetGraph,
    chunking_context: &ChunkingContext,
    context: ChunkContentContext,
    walk: Walk,
) -> Walk
    decreases unprocessed(walk.processed), walk.roots.len() + walk.reserved.len(), walk.stack.len(),
    via run_ends
{
    if walk.status is Running && has_work(walk) {
        run(graph, chunking_context, context, step(graph, chunking_context, context, walk))
    } else {
        walk
    }
}

#[via_fn]
proof fn run_ends(
    graph: &AssetGraph,
    chunking_context: &ChunkingContext,
    context: ChunkContentContext,
    walk: Walk,
) {
    if walk.status is Running && has_work(walk) {
        lemma_step_uses_up_work(graph, chunking_context, context, walk);
    }
}

/// A step leaves fewer keys unrecorded, or as many keys and fewer root
/// edges to decide on or to follow, or as many of both and less work on the
/// stack.
pub proof fn lemma_step_uses_up_work(
    graph: &AssetGraph,
    chunking_context: &ChunkingContext,
    context: ChunkContentContext,
    walk: Walk,
)
    requires
        has_work(walk),
    ensures
        ({
            let next = step(graph, chunking_context, context, walk);
            let keys = unprocessed(walk.processed);
            let roots = walk.roots.len() + walk.reserved.len();
            unprocessed(next.processed) < keys || (unprocessed(next.processed) == keys && (
            next.roots.len() + next.reserved.len() < roots || (next.roots.len()
                + next.reserved.len() == roots && next.stack.len() < walk.stack.len())))
        }),
{
    let decided = if walk.roots.len() > 0 {
        Some(walk.roots[0])
    } else if walk.stack.len() > 0 && walk.stack.last() is Visit {
        Some(frame_edge(walk.stack.last()))
    } else {
        None
    };
    match decided {
        Some(edge) => {
            if is_fresh(walk.processed, edge) {
                let key = dedup_key(walk.processed, edge)->0;
                lemma_recording_uses_up_a_key(walk.processed, key.0, key.1);
            } else {
                assert(processed_after(walk.processed, edge) =~= walk.processed);
                if walk.roots.len() == 0 && walk.reserved.contains(edge) {
                    let upto = choose|i: int| 0 <= i < walk.reserved.len() && walk.reserved[i] == edge;
                    lemma_edge_has_a_place(walk.reserved, edge, upto);
                }
            }
        },
        None => {},
    }
}

/// What holds before a walk and is kept by every step of it holds when the
/// walk has ended.
pub proof fn lemma_run_keeps(
    graph: &AssetGraph,
    chunking_context: &ChunkingContext,
    context: ChunkContentContext,
    walk: Walk,
    kept: spec_fn(Walk) -> bool,
)
    requires
        kept(walk),
        forall|w: Walk|
            kept(w) && w.status is Running && has_work(w) ==> #[trigger] kept(
                step(graph, chunking_context, context, w),
            ),
    ensures
        kept(run(graph, chunking_context, context, walk)),
    decreases unprocessed(walk.processed), walk.roots.len() + walk.reserved.len(), walk.stack.len(),
{
    if walk.status is Running && has_work(walk) {
        lemma_step_uses_up_work(graph, chunking_context, context, walk);
        lemma_run_keeps(
            graph,
            chunking_context,
            context,
            step(graph, chunking_context, context, walk),
            kept,
        );
    }
}

/// A walk ends only when no work is left, unless it is given up or fails.
pub proof fn lemma_run_leaves_no_work(
    graph: &AssetGraph,
    chunking_context: &ChunkingContext,
    context: ChunkContentContext,
    walk: Walk,
)
    ensures
        run(graph, chunking_context, context, walk).status is Running ==> !has_work(
            run(graph, chunking_context, context, walk),
        ),
    decreases unprocessed(walk.processed), walk.roots.len() + walk.reserved.len(), walk.stack.len(),
{
    if walk.status is Running && has_work(walk) {
        lemma_step_uses_up_work(graph, chunking_context, context, walk);
        lemma_run_leaves_no_work(
            graph,
            chunking_context,
            context,
            step(graph, chunking_context, context, walk),
        );
    }
}

/// The number of frames at the bottom of the stack that a step leaves as
/// they are.
pub open spec fn base_of(walk: Walk) -> int {
    if walk.roots.len() > 0 {
        walk.stack.len() as int
    } else if walk.stack.len() > 0 {
        walk.stack.len() - 1
    } else {
        0
    }
}

/// The edge that a step decides on, if it decides on one.
pub open spec fn decided_edge(walk: Walk) -> Option<ChunkContentEdge> {
    if walk.roots.len() > 0 {
        Some(walk.roots[0])
    } else if walk.stack.len() > 0 && walk.stack.last() is Visit {
        Some(frame_edge(walk.stack.last()))
    } else {
        None
    }
}

/// Whether a step takes a chunk item out of the reserve: when the stack is
/// empty, or when the edge on top is skipped and is one of the reserve.
pub open spec fn leaves_reserve(context: ChunkContentContext, walk: Walk) -> bool {
    walk.roots.len() == 0 && if walk.stack.len() > 0 {
        walk.stack.last() is Visit && decision(
            context.split,
            walk.processed,
            walk.chunk_items_count,
            frame_edge(walk.stack.last()),
        ) is Skip && walk.reserved.contains(frame_edge(walk.stack.last()))
    } else {
        walk.reserved.len() > 0
    }
}

/// The place in the reserve of the chunk item that a step takes out of it.
pub open spec fn left_place(walk: Walk) -> int {
    if walk.stack.len() > 0 {
        place_of(walk.reserved, frame_edge(walk.stack.last()))
    } else {
        0
    }
}

/// The edge to the chunk item whose own edges a step looks up, if it looks
/// up any.
pub open spec fn followed_edge(context: ChunkContentContext, walk: Walk) -> Option<
    ChunkContentEdge,
> {
    if leaves_reserve(context, walk) {
        Some(walk.reserved[left_place(walk)])
    } else if walk.roots.len() == 0 && walk.stack.len() > 0 && walk.stack.last() is Visit
        && decision(
        context.split,
        walk.processed,
        walk.chunk_items_count,
        frame_edge(walk.stack.last()),
    ) is Continue && expands(walk.processed, frame_edge(walk.stack.last())) {
        Some(frame_edge(walk.stack.last()))
    } else {
        None
    }
}

/// The edge that a step hands out, if it hands out one.
pub open spec fn handed_edge(context: ChunkContentContext, walk: Walk) -> Option<ChunkContentEdge> {
    match decided_edge(walk) {
        Some(edge) => if decision(context.split, walk.processed, walk.chunk_items_count, edge)
            is Continue && !expands(walk.processed, edge) {
            Some(edge)
        } else {
            None
        },
        None => if walk.stack.len() > 0 {
            Some(frame_edge(walk.stack.last()))
        } else {
            None
        },
    }
}

/// The root edge that a step puts into the reserve, if it does.
pub open spec fn reserved_edge(context: ChunkContentContext, walk: Walk) -> Option<
    ChunkContentEdge,
> {
    if walk.roots.len() > 0 && decision(
        context.split,
        walk.processed,
        walk.chunk_items_count,
        walk.roots[0],
    ) is Continue && expands(walk.processed, walk.roots[0]) {
        Some(walk.roots[0])
    } else {
        None
    }
}

/// What a step does to the parts of the state.
pub proof fn lemma_step_shape(
    graph: &AssetGraph,
    chunking_context: &ChunkingContext,
    context: ChunkContentContext,
    walk: Walk,
)
    requires
        walk.status is Running,
        has_work(walk),
    ensures
        ({
            let next = step(graph, chunking_context, context, walk);
            let base = base_of(walk);
            let done = walk.emitted.len() as int;
            &&& next.processed.len() == walk.processed.len()
            &&& next.roots == if walk.roots.len() > 0 {
                walk.roots.drop_first()
            } else {
                walk.roots
            }
            &&& next.stack.len() >= base
            &&& forall|t: int| 0 <= t < base ==> #[trigger] next.stack[t] == walk.stack[t]
            &&& !(next.status is Running) ==> next.stack.len() == base
            &&& next.status is Running ==> match followed_edge(context, walk) {
                Some(edge) => {
                    &&& node_edges(graph, chunking_context, context, edge.node) is Ok
                    &&& next.stack.len() == base + 1 + node_edges(
                        graph,
                        chunking_context,
                        context,
                        edge.node,
                    )->Ok_0.len()
                    &&& next.stack[base] == Frame::Emit(edge)
                    &&& forall|t: int|
                        base < t < next.stack.len() ==> #[trigger] next.stack[t] == pending(
                            node_edges(graph, chunking_context, context, edge.node)->Ok_0,
                        )[t - base - 1]
                },
                None => next.stack.len() == base,
            }
            &&& forall|j: int| 0 <= j < done ==> #[trigger] next.emitted[j] == walk.emitted[j]
            &&& match handed_edge(context, walk) {
                Some(edge) => next.emitted == walk.emitted.push(edge),
                None => next.emitted == walk.emitted,
            }
            &&& leaves_reserve(context, walk) ==> 0 <= left_place(walk) < walk.reserved.len()
                && next.reserved == walk.reserved.remove(left_place(walk))
            &&& !leaves_reserve(context, walk) ==> match reserved_edge(context, walk) {
                Some(edge) => next.reserved == walk.reserved.push(edge),
                None => next.reserved == walk.reserved,
            }
            &&& forall|asset: AssetId, chunking_type: ChunkingType| #[trigger]
                is_processed(walk.processed, asset, chunking_type) ==> is_processed(
                    next.processed,
                    asset,
                    chunking_type,
                )
            &&& forall|asset: AssetId, chunking_type: ChunkingType| #[trigger]
                is_processed(next.processed, asset, chunking_type) ==> is_processed(
                    walk.processed,
                    asset,
                    chunking_type,
                ) || (decided_edge(walk) matches Some(edge) && is_fresh(walk.processed, edge)
                    && edge.key == Some((asset, chunking_type)))
        }),
{
    if walk.roots.len() == 0 && walk.stack.len() > 0 && walk.stack.last() is Visit {
        let edge = frame_edge(walk.stack.last());
        if walk.reserved.contains(edge) {
            let upto = choose|i: int| 0 <= i < walk.reserved.len() && walk.reserved[i] == edge;
            lemma_edge_has_a_place(walk.reserved, edge, upto);
        }
    }
    if walk.roots.len() == 0 && walk.stack.len() == 0 {
        assert(walk.reserved.drop_first() =~= walk.reserved.remove(0));
    }
}

/// How a walk over a graph ended.
#[derive(Debug, PartialEq, Eq)]
pub enum GraphTraversalResult {
    /// The walk went through: it hands out the edges it followed, each
    /// chunk item after everything that was reached from it, or the error
    /// that it met.
    Completed(Result<Vec<ChunkContentEdge>, ChunkingError>),
    /// The walk was given up.
    Aborted,
}

/// Whether the result of a walk tells of the state in which the walk ended.
pub open spec fn tells_of(result: GraphTraversalResult, end: Walk) -> bool {
    match result {
        GraphTraversalResult::Completed(Ok(edges)) => end.status is Running && end.emitted
            == edges@,
        GraphTraversalResult::Completed(Err(error)) => end.status == WalkStatus::Failed(error),
        GraphTraversalResult::Aborted => end.status is Aborted,
    }
}

/// Puts the frames for a list of edges on the stack, the first edge on top.
fn push_pending(stack: &mut Vec<Frame>, edges: &Vec<ChunkContentEdge>)
    ensures
        final(stack)@ == old(stack)@ + pending(edges@),
{
    let ghost before = stack@;
    let mut left: usize = edges.len();
    while left > 0
        invariant
            left <= edges@.len(),
            stack@ == before + pending(edges@).take(edges@.len() - left),
        decreases left,
    {
        left -= 1;
        stack.push(Frame::Visit(edges[left]));
        assert(stack@ =~= before + pending(edges@).take(edges@.len() - left));
    }
    assert(pending(edges@).take(edges@.len() as int) =~= pending(edges@));
}

/// Whether two edges are the same.
fn same_edge(one: &ChunkContentEdge, other: &ChunkContentEdge) -> (r: bool)
    ensures
        r == (*one == *other),
{
    let keys = match (one.key, other.key) {
        (None, None) => true,
        (Some((asset, chunking_type)), Some((other_asset, other_type))) => asset == other_asset
            && chunking_type == other_type,
        _ => false,
    };
    keys && one.node == other.node
}

/// Finds the first place of an edge in a list.
fn find(list: &Vec<ChunkContentEdge>, edge: &ChunkContentEdge) -> (r: Option<usize>)
    ensures
        match r {
            Some(place) => list@.contains(*edge) && place == place_of(list@, *edge) && place
                < list@.len(),
            None => !list@.contains(*edge),
        },
{
    let mut i: usize = 0;
    while i < list.len()
        invariant
            i <= list@.len(),
            forall|j: int| 0 <= j < i ==> #[trigger] list@[j] != *edge,
        decreases list@.len() - i,
    {
        if same_edge(&list[i], edge) {
            proof {
                lemma_place_is_unique(list@, *edge, i as int);
            }
            return Some(i);
        }
        i += 1;
    }
    None
}

/// Looks up the edges that leave the chunk item behind an edge and puts
/// the chunk item and the edges on the stack.
fn follow_edges(
    state: &ChunkContentVisit,
    graph: &AssetGraph,
    chunking_context: &ChunkingContext,
    stack: &mut Vec<Frame>,
    edge: ChunkContentEdge,
) -> (r: Result<(), ChunkingError>)
    ensures
        match r {
            Ok(()) => node_edges(graph, chunking_context, state.context, edge.node) matches Ok(
                edges,
            ) && final(stack)@ == old(stack)@.push(Frame::Emit(edge)) + pending(edges),
            Err(error) => node_edges(graph, chunking_context, state.context, edge.node) == Err::<
                Seq<ChunkContentEdge>,
                ChunkingError,
            >(error) && final(stack)@ == old(stack)@,
        },
{
    match state.edges(graph, chunking_context, &edge.node) {
        Err(error) => Err(error),
        Ok(edges) => {
            stack.push(Frame::Emit(edge));
            push_pending(stack, &edges);
            Ok(())
        },
    }
}

/// Whether every edge that the walk holds is one to go on from.
pub open spec fn is_orderly_walk(graph: &AssetGraph, walk: Walk) -> bool {
    &&& walk.processed.len() == graph.assets@.len()
    &&& forall|i: int| 0 <= i < walk.roots.len() ==> is_orderly_edge(graph, #[trigger] walk.roots[i])
    &&& forall|i: int|
        0 <= i < walk.reserved.len() ==> is_orderly_edge(graph, #[trigger] walk.reserved[i])
    &&& forall|i: int|
        0 <= i < walk.stack.len() ==> is_orderly_edge(graph, frame_edge(#[trigger] walk.stack[i]))
}

/// A step of a walk over a well-formed graph keeps the edges that the walk
/// holds in order.
pub proof fn lemma_step_keeps_orderly(
    graph: &AssetGraph,
    chunking_context: &ChunkingContext,
    context: ChunkContentContext,
    walk: Walk,
)
    requires
        graph.is_well_formed(),
        is_orderly_walk(graph, walk),
        walk.status is Running,
        has_work(walk),
    ensures
        is_orderly_walk(graph, step(graph, chunking_context, context, walk)),
{
    let next = step(graph, chunking_context, context, walk);
    let base = base_of(walk);
    lemma_step_shape(graph, chunking_context, context, walk);
    assert forall|i: int| 0 <= i < next.roots.len() implies is_orderly_edge(
        graph,
        #[trigger] next.roots[i],
    ) by {
        if walk.roots.len() > 0 {
            assert(next.roots[i] == walk.roots[i + 1]);
        }
    }
    assert forall|i: int| 0 <= i < next.reserved.len() implies is_orderly_edge(
        graph,
        #[trigger] next.reserved[i],
    ) by {
        if leaves_reserve(context, walk) {
            let place = left_place(walk);
            if i < place {
                assert(next.reserved[i] == walk.reserved[i]);
            } else {
                assert(next.reserved[i] == walk.reserved[i + 1]);
            }
        } else if i < walk.reserved.len() {
            assert(next.reserved[i] == walk.reserved[i]);
        } else {
            assert(next.reserved[i] == walk.roots[0]);
        }
    }
    if next.status is Running {
        assert forall|i: int| 0 <= i < next.stack.len() implies is_orderly_edge(
            graph,
            frame_edge(#[trigger] next.stack[i]),
        ) by {
            if i < base {
                assert(next.stack[i] == walk.stack[i]);
            } else {
                let edge = followed_edge(context, walk)->0;
                assert(is_orderly_edge(graph, edge)) by {
                    if walk.stack.len() > 0 {
                        assert(is_orderly_edge(
                            graph,
                            frame_edge(walk.stack[walk.stack.len() - 1]),
                        ));
                    } else {
                        assert(is_orderly_edge(graph, walk.reserved[0]));
                    }
                }
                if i > base {
                    lemma_node_edges_are_orderly(graph, chunking_context, context, edge.node);
                }
            }
        }
    } else {
        assert forall|i: int| 0 <= i < next.stack.len() implies is_orderly_edge(
            graph,
            frame_edge(#[trigger] next.stack[i]),
        ) by {
            assert(next.stack[i] == walk.stack[i]);
        }
    }
}

/// Walks the content graph of one chunk from the given root edges, in the
/// state that `visit` holds, which is one for the assets of the graph. The
/// graph is well formed, and each root edge is one to start from.
pub fn traverse(
    graph: &AssetGraph,
    chunking_context: &ChunkingContext,
    root_edges: Vec<ChunkContentEdge>,
    visit: ChunkContentVisit,
) -> (r: GraphTraversalResult)
    requires
        graph.is_well_formed(),
        visit.processed_assets@.len() == graph.assets@.len(),
        forall|i: int| 0 <= i < root_edges@.len() ==> is_orderly_edge(graph, #[trigger] root_edges@[i]),
    ensures
        tells_of(
            r,
            run(
                graph,
                chunking_context,
                visit.context,
                start(root_edges@, visit.processed_assets@, visit.chunk_items_count),
            ),
        ),
{
    let ghost context = visit.context;
    let ghost end = run(
        graph,
        chunking_context,
        context,
        start(root_edges@, visit.processed_assets@, visit.chunk_items_count),
    );
    let mut state = visit;
    let mut root: usize = 0;
    let mut reserved: Vec<ChunkContentEdge> = Vec::new();
    let mut stack: Vec<Frame> = Vec::new();
    let mut emitted: Vec<ChunkContentEdge> = Vec::new();
    assert(root_edges@.subrange(0, root_edges@.len() as int) =~= root_edges@);
    loop
        invariant
            graph.is_well_formed(),
            state.context == context,
            visit.context == context,
            root <= root_edges@.len(),
            is_orderly_walk(
                graph,
                Walk {
                    roots: root_edges@.subrange(root as int, root_edges@.len() as int),
                    reserved: reserved@,
                    stack: stack@,
                    processed: state.processed_assets@,
                    chunk_items_count: state.chunk_items_count,
                    emitted: emitted@,
                    status: WalkStatus::Running,
                },
            ),
            end == run(
                graph,
                chunking_context,
                context,
                start(root_edges@, visit.processed_assets@, visit.chunk_items_count),
            ),
            end == run(
                graph,
                chunking_context,
                context,
                Walk {
                    roots: root_edges@.subrange(root as int, root_edges@.len() as int),
                    reserved: reserved@,
                    stack: stack@,
                    processed: state.processed_assets@,
                    chunk_items_count: state.chunk_items_count,
                    emitted: emitted@,
                    status: WalkStatus::Running,
                },
            ),
        decreases
                unprocessed(state.processed_assets@),
                root_edges@.len() - root + reserved@.len(),
                stack@.len(),
    {
        let ghost walk = Walk {
            roots: root_edges@.subrange(root as int, root_edges@.len() as int),
            reserved: reserved@,
            stack: stack@,
            processed: state.processed_assets@,
            chunk_items_count: state.chunk_items_count,
            emitted: emitted@,
            status: WalkStatus::Running,
        };
        let ghost next = step(graph, chunking_context, context, walk);
        proof {
            if has_work(walk) {
                lemma_step_uses_up_work(graph, chunking_context, context, walk);
                lemma_step_keeps_orderly(graph, chunking_context, context, walk);
                lemma_step_shape(graph, chunking_context, context, walk);
                assert(end == run(graph, chunking_context, context, next));
            }
        }
        if root < root_edges.len() {
            let edge = root_edges[root];
            assert(walk.roots[0] == edge);
            assert(walk.roots.drop_first() =~= root_edges@.subrange(
                root + 1,
                root_edges@.len() as int,
            ));
            root += 1;
            let expand = state.expands(&edge);
            match state.visit(edge) {
                VisitControlFlow::Skip(_) => {},
                VisitControlFlow::Abort => {
                    return GraphTraversalResult::Aborted;
                },
                VisitControlFlow::Continue(_) => {
                    if expand {
                        reserved.push(edge);
                    } else {
                        emitted.push(edge);
                    }
                },
            }
        } else if stack.len() > 0 {
            assert(walk.roots.len() == 0);
            assert(is_orderly_edge(graph, frame_edge(walk.stack[walk.stack.len() - 1])));
            let frame = stack.pop().unwrap();
            match frame {
                Frame::Emit(edge) => {
                    emitted.push(edge);
                },
                Frame::Visit(edge) => {
                    let expand = state.expands(&edge);
                    match state.visit(edge) {
                        VisitControlFlow::Skip(_) => {
                            if let Some(place) = find(&reserved, &edge) {
                                let _ = reserved.remove(place);
                                if let Err(error) = follow_edges(
                                    &state,
                                    graph,
                                    chunking_context,
                                    &mut stack,
                                    edge,
                                ) {
                                    return GraphTraversalResult::Completed(Err(error));
                                }
                            }
                        },
                        VisitControlFlow::Abort => {
                            return GraphTraversalResult::Aborted;
                        },
                        VisitControlFlow::Continue(_) => {
                            if expand {
                                if let Err(error) = follow_edges(
                                    &state,
                                    graph,
                                    chunking_context,
                                    &mut stack,
                                    edge,
                                ) {
                                    return GraphTraversalResult::Completed(Err(error));
                                }
                            } else {
                                emitted.push(edge);
                            }
                        },
                    }
                },
            }
        } else if reserved.len() > 0 {
            assert(walk.roots.len() == 0);
            let edge = reserved.remove(0);
            assert(reserved@ =~= walk.reserved.drop_first());
            if let Err(error) = follow_edges(&state, graph, chunking_context, &mut stack, edge) {
                return GraphTraversalResult::Completed(Err(error));
            }
        } else {
            assert(walk.roots.len() == 0);
            return GraphTraversalResult::Completed(Ok(emitted));
        }
        assert(next.roots =~= root_edges@.subrange(root as int, root_edges@.len() as int));
        assert(stack@ =~= next.stack);
        assert(emitted@ =~= next.emitted);
        assert(reserved@ =~= next.reserved);
    }
}

/// Every edge that leaves a node of a well-formed graph is one that a walk
/// can go on from.
pub proof fn lemma_node_edges_are_orderly(
    graph: &AssetGraph,
    chunking_context: &ChunkingContext,
    context: ChunkContentContext,
    node: ChunkContentGraphNode,
)
    requires
        graph.is_well_formed(),
    ensures
        match node_edges(graph, chunking_context, context, node) {
            Ok(edges) => forall|j: int|
                0 <= j < edges.len() ==> is_orderly_edge(graph, #[trigger] edges[j]),
            Err(_) => true,
        },
{
    match node {
        ChunkContentGraphNode::ChunkItem(item) => {
            lemma_references_edges_are_sound(
                graph,
                chunking_context,
                context,
                Seq::<AssetId>::empty(),
                graph.references_of(item),
            );
            match node_edges(graph, chunking_context, context, node) {
                Ok(edges) => {
                    assert forall|j: int| 0 <= j < edges.len() implies is_orderly_edge(
                        graph,
                        #[trigger] edges[j],
                    ) by {
                        assert(is_sound_edge(
                            graph,
                            chunking_context,
                            context,
                            Seq::<AssetId>::empty(),
                            edges[j],
                        ));
                    }
                },
                Err(_) => {},
            }
        },
        _ => {},
    }
}

} // verus!
