use crate::chunk_graph::{chunk_children, has_record};
use crate::graph::{AssetGraph, Chunk};
use crate::group::{
    chunks_of_group, group_run, group_step, lemma_group_step_uses_up_work,
    lemma_seen_after_push, root_chunks, unseen_records, waiting, ChunkFrame, ChunkGroupView,
    GroupWalk,
};
use vstd::prelude::*;

verus! {

/// What holds before a walk over chunks and is kept by every step of it
/// holds when the walk has ended.
pub proof fn lemma_group_run_keeps(
    graph: &AssetGraph,
    walk: GroupWalk,
    kept: spec_fn(GroupWalk) -> bool,
)
    requires
        kept(walk),
        forall|w: GroupWalk| kept(w) && w.stack.len() > 0 ==> #[trigger] kept(group_step(graph, w)),
    ensures
        kept(group_run(graph, walk)),
        group_run(graph, walk).stack.len() == 0,
    decreases unseen_records(graph.chunks@, walk.seen), walk.stack.len(),
{
    if walk.stack.len() > 0 {
        lemma_group_step_uses_up_work(graph, walk);
        lemma_group_run_keeps(graph, group_step(graph, walk), kept);
    }
}

/// Whether the walk holds each chunk once: the chunks that were handed out
/// and those that are put off are exactly the chunks that have been looked
/// at, and no two of them are the same.
pub open spec fn holds_each_chunk_once(walk: GroupWalk) -> bool {
    &&& forall|i: int| 0 <= i < walk.emitted.len() ==> walk.seen.contains(#[trigger] walk.emitted[i])
    &&& forall|s: int|
        0 <= s < walk.stack.len() ==> match #[trigger] walk.stack[s] {
            ChunkFrame::Emit(chunk) => walk.seen.contains(chunk),
            ChunkFrame::Visit(_) => true,
        }
    &&& forall|i: int, j: int|
        0 <= i < j < walk.emitted.len() ==> #[trigger] walk.emitted[i] != #[trigger] walk.emitted[j]
    &&& forall|s: int, t: int|
        0 <= s < t < walk.stack.len() && (#[trigger] walk.stack[s]) is Emit ==> walk.stack[s] != (
        #[trigger] walk.stack[t])
    &&& forall|s: int, i: int|
        0 <= s < walk.stack.len() && 0 <= i < walk.emitted.len() ==> (
        #[trigger] walk.stack[s]) != ChunkFrame::Emit(#[trigger] walk.emitted[i])
    &&& forall|chunk: Chunk| #[trigger]
        walk.seen.contains(chunk) ==> walk.emitted.contains(chunk) || walk.stack.contains(
            ChunkFrame::Emit(chunk),
        )
}

/// Whether each of the chunks has been looked at or is still to be looked
/// at.
pub open spec fn reaches(walk: GroupWalk, chunks: Seq<Chunk>) -> bool {
    forall|k: int|
        0 <= k < chunks.len() ==> walk.seen.contains(#[trigger] chunks[k]) || walk.stack.contains(
            ChunkFrame::Visit(chunks[k]),
        )
}

/// What a step does to the stack, to the chunks looked at and to the list
/// of chunks handed out.
proof fn lemma_group_step_shape(graph: &AssetGraph, walk: GroupWalk)
    requires
        walk.stack.len() > 0,
    ensures
        ({
            let next = group_step(graph, walk);
            let place = walk.stack.len() - 1;
            let top = walk.stack[place];
            &&& next.stack.len() >= place
            &&& forall|t: int| 0 <= t < place ==> #[trigger] next.stack[t] == walk.stack[t]
            &&& forall|t: int| place < t < next.stack.len() ==> (#[trigger] next.stack[t]) is Visit
            &&& next.stack.len() > place ==> (top matches ChunkFrame::Visit(chunk)
                && !walk.seen.contains(chunk) && next.stack[place] == ChunkFrame::Emit(chunk)
                && next.emitted == walk.emitted && next.seen == walk.seen.push(chunk))
            &&& next.emitted.len() >= walk.emitted.len()
            &&& forall|j: int|
                0 <= j < walk.emitted.len() ==> #[trigger] next.emitted[j] == walk.emitted[j]
            &&& next.emitted.len() <= walk.emitted.len() + 1
            &&& next.emitted.len() > walk.emitted.len() ==> (top == ChunkFrame::Emit(
                next.emitted[walk.emitted.len() as int],
            ) && next.seen == walk.seen) || (top == ChunkFrame::Visit(
                next.emitted[walk.emitted.len() as int],
            ) && !walk.seen.contains(next.emitted[walk.emitted.len() as int]) && next.seen
                == walk.seen.push(next.emitted[walk.emitted.len() as int]))
            &&& next.stack.len() == place && next.emitted.len() == walk.emitted.len() ==> (
            top matches ChunkFrame::Visit(chunk) && walk.seen.contains(chunk) && next.seen
                == walk.seen)
        }),
{
    let place = walk.stack.len() - 1;
    match walk.stack[place] {
        ChunkFrame::Visit(chunk) => {
            if !walk.seen.contains(chunk) && has_record(graph, chunk) {
                let next = group_step(graph, walk);
                let children = chunk_children(graph, chunk);
                assert forall|t: int| place < t < next.stack.len() implies (
                #[trigger] next.stack[t]) is Visit by {
                    assert(next.stack[t] == waiting(children)[t - place - 1]);
                }
            }
        },
        ChunkFrame::Emit(_) => {},
    }
}

/// A step of a walk that holds each chunk once leads to such a walk.
proof fn lemma_group_step_keeps_each_chunk_once(graph: &AssetGraph, walk: GroupWalk)
    requires
        holds_each_chunk_once(walk),
        walk.stack.len() > 0,
    ensures
        holds_each_chunk_once(group_step(graph, walk)),
{
    let next = group_step(graph, walk);
    let place = walk.stack.len() - 1;
    let top = walk.stack[place];
    let done = walk.emitted.len() as int;
    lemma_group_step_shape(graph, walk);
    assert forall|chunk: Chunk| walk.seen.contains(chunk) implies next.seen.contains(chunk) by {
        if next.seen != walk.seen {
            lemma_seen_after_push(walk.seen, next.seen.last(), chunk);
            assert(next.seen =~= walk.seen.push(next.seen.last()));
        }
    }
    assert forall|i: int| 0 <= i < next.emitted.len() implies next.seen.contains(
        #[trigger] next.emitted[i],
    ) by {
        if i < done {
            assert(next.emitted[i] == walk.emitted[i]);
        } else if top is Emit {
            assert(walk.stack[place] == top);
        } else {
            lemma_seen_after_push(walk.seen, next.emitted[i], next.emitted[i]);
        }
    }
    assert forall|s: int| 0 <= s < next.stack.len() implies match #[trigger] next.stack[s] {
        ChunkFrame::Emit(chunk) => next.seen.contains(chunk),
        ChunkFrame::Visit(_) => true,
    } by {
        if s < place {
            assert(next.stack[s] == walk.stack[s]);
        } else if s == place {
            let chunk = top->Visit_0;
            lemma_seen_after_push(walk.seen, chunk, chunk);
        }
    }
    assert forall|i: int, j: int| 0 <= i < j < next.emitted.len() implies #[trigger] next.emitted[i]
        != #[trigger] next.emitted[j] by {
        assert(next.emitted[i] == walk.emitted[i]);
        if j == done {
            if top is Emit {
                assert(walk.stack[place] != ChunkFrame::Emit(walk.emitted[i]));
            }
        } else {
            assert(next.emitted[j] == walk.emitted[j]);
        }
    }
    assert forall|s: int, t: int|
        0 <= s < t < next.stack.len() && (#[trigger] next.stack[s]) is Emit implies next.stack[s]
        != (#[trigger] next.stack[t]) by {
        if s < place {
            assert(next.stack[s] == walk.stack[s]);
            if t < place {
                assert(next.stack[t] == walk.stack[t]);
            }
        }
    }
    assert forall|s: int, i: int|
        0 <= s < next.stack.len() && 0 <= i < next.emitted.len() implies (
    #[trigger] next.stack[s]) != ChunkFrame::Emit(#[trigger] next.emitted[i]) by {
        if s < place {
            assert(next.stack[s] == walk.stack[s]);
            if i < done {
                assert(next.emitted[i] == walk.emitted[i]);
            } else if top is Emit {
                assert(walk.stack[place] == top);
            }
        } else if s == place {
            assert(next.emitted[i] == walk.emitted[i]);
        }
    }
    assert forall|chunk: Chunk| #[trigger] next.seen.contains(chunk) implies next.emitted.contains(
        chunk,
    ) || next.stack.contains(ChunkFrame::Emit(chunk)) by {
        if walk.seen.contains(chunk) {
            if walk.emitted.contains(chunk) {
                let i = choose|i: int| 0 <= i < walk.emitted.len() && walk.emitted[i] == chunk;
                assert(next.emitted[i] == chunk);
            } else {
                let s = choose|s: int|
                    0 <= s < walk.stack.len() && walk.stack[s] == ChunkFrame::Emit(chunk);
                if s < place {
                    assert(next.stack[s] == ChunkFrame::Emit(chunk));
                } else {
                    assert(next.emitted[done] == chunk);
                }
            }
        } else {
            lemma_seen_after_push(walk.seen, next.seen.last(), chunk);
            assert(next.seen =~= walk.seen.push(next.seen.last()));
            if next.stack.len() > place {
                assert(next.stack[place] == ChunkFrame::Emit(chunk));
            } else {
                assert(next.emitted[done] == chunk);
            }
        }
    }
}

/// A step keeps the chunks that are reached.
proof fn lemma_group_step_keeps_reach(graph: &AssetGraph, walk: GroupWalk, chunks: Seq<Chunk>)
    requires
        reaches(walk, chunks),
        walk.stack.len() > 0,
    ensures
        reaches(group_step(graph, walk), chunks),
{
    let next = group_step(graph, walk);
    let place = walk.stack.len() - 1;
    lemma_group_step_shape(graph, walk);
    assert forall|k: int| 0 <= k < chunks.len() implies next.seen.contains(#[trigger] chunks[k])
        || next.stack.contains(ChunkFrame::Visit(chunks[k])) by {
        let chunk = chunks[k];
        if next.seen != walk.seen {
            lemma_seen_after_push(walk.seen, next.seen.last(), chunk);
            assert(next.seen =~= walk.seen.push(next.seen.last()));
        }
        if !walk.seen.contains(chunk) {
            let s = choose|s: int|
                0 <= s < walk.stack.len() && walk.stack[s] == ChunkFrame::Visit(chunk);
            if s < place {
                assert(next.stack[s] == ChunkFrame::Visit(chunk));
            }
        }
    }
}

/// The walk over the chunks of a group holds each chunk once when it ends,
/// and has looked at every root chunk.
proof fn lemma_group_walk_ends_well(graph: &AssetGraph, group: ChunkGroupView)
    ensures
        ({
            let end = group_run(
                graph,
                GroupWalk {
                    stack: waiting(root_chunks(group)),
                    seen: Seq::empty(),
                    emitted: Seq::empty(),
                },
            );
            &&& end.stack.len() == 0
            &&& holds_each_chunk_once(end)
            &&& reaches(end, root_chunks(group))
        }),
{
    let roots = root_chunks(group);
    let begin = GroupWalk { stack: waiting(roots), seen: Seq::empty(), emitted: Seq::empty() };
    let kept = |w: GroupWalk| holds_each_chunk_once(w) && reaches(w, roots);
    assert forall|k: int| 0 <= k < roots.len() implies begin.stack.contains(
        ChunkFrame::Visit(#[trigger] roots[k]),
    ) by {
        assert(begin.stack[roots.len() - 1 - k] == ChunkFrame::Visit(roots[k]));
    }
    assert forall|w: GroupWalk| kept(w) && w.stack.len() > 0 implies #[trigger] kept(
        group_step(graph, w),
    ) by {
        lemma_group_step_keeps_each_chunk_once(graph, w);
        lemma_group_step_keeps_reach(graph, w, roots);
    }
    lemma_group_run_keeps(graph, begin, kept);
}

/// No chunk is listed twice among the chunks of a group.
pub proof fn lemma_chunks_of_group_are_listed_once(
    graph: &AssetGraph,
    group: ChunkGroupView,
    first: int,
    second: int,
)
    requires
        0 <= first < second < chunks_of_group(graph, group).len(),
    ensures
        chunks_of_group(graph, group)[first] != chunks_of_group(graph, group)[second],
{
    lemma_group_walk_ends_well(graph, group);
}

/// The entry chunk of a group and the root chunk of each asset that the
/// group evaluates are among the chunks of the group.
pub proof fn lemma_chunks_of_group_hold_the_roots(
    graph: &AssetGraph,
    group: ChunkGroupView,
    index: int,
)
    requires
        0 <= index < root_chunks(group).len(),
    ensures
        chunks_of_group(graph, group).contains(root_chunks(group)[index]),
        chunks_of_group(graph, group).contains(group.entry),
{
    lemma_group_walk_ends_well(graph, group);
    let end = group_run(
        graph,
        GroupWalk {
            stack: waiting(root_chunks(group)),
            seen: Seq::empty(),
            emitted: Seq::empty(),
        },
    );
    assert(end.seen.contains(root_chunks(group)[index]));
    assert(root_chunks(group)[0] == group.entry);
    assert(end.seen.contains(root_chunks(group)[0]));
}

/// The chunk of a frame.
pub open spec fn frame_chunk(frame: ChunkFrame) -> Chunk {
    match frame {
        ChunkFrame::Visit(chunk) => chunk,
        ChunkFrame::Emit(chunk) => chunk,
    }
}

/// Whether the chunks lead from a root chunk of the group from chunk to
/// chunk child.
pub open spec fn is_chunk_path(graph: &AssetGraph, group: ChunkGroupView, path: Seq<Chunk>) -> bool {
    &&& path.len() > 0
    &&& root_chunks(group).contains(path[0])
    &&& forall|i: int|
        0 <= i < path.len() - 1 ==> chunk_children(graph, #[trigger] path[i]).contains(path[i + 1])
}

/// Whether the chunk is reached from the root chunks of the group.
pub open spec fn is_chunk_reached(graph: &AssetGraph, group: ChunkGroupView, chunk: Chunk) -> bool {
    exists|path: Seq<Chunk>| #[trigger] is_chunk_path(graph, group, path) && path.last() == chunk
}

/// Whether `rank` shows that the chunks that are reached from the root
/// chunks of the group load each other in parallel without a cycle: every
/// reached chunk ranks above its chunk children.
pub open spec fn is_chunk_ranking(
    graph: &AssetGraph,
    group: ChunkGroupView,
    rank: spec_fn(Chunk) -> nat,
) -> bool {
    forall|chunk: Chunk, child: Chunk|
        is_chunk_reached(graph, group, chunk) && #[trigger] chunk_children(graph, chunk).contains(
            child,
        ) ==> rank(child) < rank(chunk)
}

/// A chunk child of a reached chunk is reached.
pub proof fn lemma_chunk_reach_goes_on(
    graph: &AssetGraph,
    group: ChunkGroupView,
    chunk: Chunk,
    child: Chunk,
)
    requires
        is_chunk_reached(graph, group, chunk),
        chunk_children(graph, chunk).contains(child),
    ensures
        is_chunk_reached(graph, group, child),
{
    let path = choose|path: Seq<Chunk>| #[trigger]
        is_chunk_path(graph, group, path) && path.last() == chunk;
    let longer = path.push(child);
    assert(longer[0] == path[0]);
    assert forall|i: int| 0 <= i < longer.len() - 1 implies chunk_children(
        graph,
        #[trigger] longer[i],
    ).contains(longer[i + 1]) by {
        if i < path.len() - 1 {
            assert(longer[i] == path[i]);
            assert(longer[i + 1] == path[i + 1]);
        }
    }
    assert(is_chunk_path(graph, group, longer));
    assert(longer.last() == child);
}

/// Whether every chunk that the walk holds is reached.
pub open spec fn holds_reached_chunks_only(
    graph: &AssetGraph,
    group: ChunkGroupView,
    walk: GroupWalk,
) -> bool {
    &&& forall|i: int|
        0 <= i < walk.stack.len() ==> is_chunk_reached(
            graph,
            group,
            frame_chunk(#[trigger] walk.stack[i]),
        )
    &&& forall|i: int|
        0 <= i < walk.emitted.len() ==> is_chunk_reached(graph, group, #[trigger] walk.emitted[i])
}

/// A step of a walk that holds reached chunks only leads to such a walk.
proof fn lemma_group_step_keeps_reached_only(
    graph: &AssetGraph,
    group: ChunkGroupView,
    walk: GroupWalk,
)
    requires
        holds_reached_chunks_only(graph, group, walk),
        walk.stack.len() > 0,
    ensures
        holds_reached_chunks_only(graph, group, group_step(graph, walk)),
{
    let next = group_step(graph, walk);
    let place = walk.stack.len() - 1;
    let last = frame_chunk(walk.stack[place]);
    let children = chunk_children(graph, last);
    lemma_group_step_shape(graph, walk);
    assert forall|i: int| 0 <= i < next.stack.len() implies is_chunk_reached(
        graph,
        group,
        frame_chunk(#[trigger] next.stack[i]),
    ) by {
        if i < place {
            assert(next.stack[i] == walk.stack[i]);
        } else if i > place {
            let m = children.len() - 1 - (i - place - 1);
            assert(next.stack[i] == waiting(children)[i - place - 1]);
            assert(children.contains(children[m]));
            lemma_chunk_reach_goes_on(graph, group, last, children[m]);
        }
    }
    assert forall|i: int| 0 <= i < next.emitted.len() implies is_chunk_reached(
        graph,
        group,
        #[trigger] next.emitted[i],
    ) by {
        if i < walk.emitted.len() {
            assert(next.emitted[i] == walk.emitted[i]);
        }
    }
}

/// The walk over the chunks of a group starts with reached chunks only.
proof fn lemma_group_start_holds_reached_only(graph: &AssetGraph, group: ChunkGroupView)
    ensures
        holds_reached_chunks_only(
            graph,
            group,
            GroupWalk {
                stack: waiting(root_chunks(group)),
                seen: Seq::empty(),
                emitted: Seq::empty(),
            },
        ),
{
    let roots = root_chunks(group);
    let begin = GroupWalk { stack: waiting(roots), seen: Seq::empty(), emitted: Seq::empty() };
    assert forall|i: int| 0 <= i < begin.stack.len() implies is_chunk_reached(
        graph,
        group,
        frame_chunk(#[trigger] begin.stack[i]),
    ) by {
        let root = roots[roots.len() - 1 - i];
        let path = seq![root];
        assert(path[0] == root);
        assert(roots.contains(root));
        assert(is_chunk_path(graph, group, path));
        assert(path.last() == root);
    }
}

/// Only what is reached is listed: each chunk of a group is reached from
/// the root chunks of the group.
pub proof fn lemma_chunks_of_group_are_reached(
    graph: &AssetGraph,
    group: ChunkGroupView,
    index: int,
)
    requires
        0 <= index < chunks_of_group(graph, group).len(),
    ensures
        is_chunk_reached(graph, group, chunks_of_group(graph, group)[index]),
{
    let begin = GroupWalk {
        stack: waiting(root_chunks(group)),
        seen: Seq::empty(),
        emitted: Seq::empty(),
    };
    let kept = |w: GroupWalk| holds_reached_chunks_only(graph, group, w);
    lemma_group_start_holds_reached_only(graph, group);
    assert forall|w: GroupWalk| kept(w) && w.stack.len() > 0 implies #[trigger] kept(
        group_step(graph, w),
    ) by {
        lemma_group_step_keeps_reached_only(graph, group, w);
    }
    lemma_group_run_keeps(graph, begin, kept);
}

/// Whether the walk has the chunk children of every chunk that it has
/// handed out or put off in hand: each has been looked at or is on the
/// stack to be looked at.
pub open spec fn leaves_no_child_out(graph: &AssetGraph, walk: GroupWalk) -> bool {
    &&& forall|i: int, child: Chunk|
        0 <= i < walk.emitted.len() && #[trigger] chunk_children(graph, walk.emitted[i]).contains(
            child,
        ) ==> walk.seen.contains(child) || walk.stack.contains(ChunkFrame::Visit(child))
    &&& forall|s: int, child: Chunk|
        0 <= s < walk.stack.len() && walk.stack[s] is Emit && #[trigger] chunk_children(
            graph,
            frame_chunk(walk.stack[s]),
        ).contains(child) ==> walk.seen.contains(child) || walk.stack.contains(
            ChunkFrame::Visit(child),
        )
}

/// A step keeps in hand a chunk that the walk has in hand.
proof fn lemma_group_step_keeps_in_hand(graph: &AssetGraph, walk: GroupWalk, chunk: Chunk)
    requires
        walk.stack.len() > 0,
        walk.seen.contains(chunk) || walk.stack.contains(ChunkFrame::Visit(chunk)),
    ensures
        group_step(graph, walk).seen.contains(chunk) || group_step(graph, walk).stack.contains(
            ChunkFrame::Visit(chunk),
        ),
{
    let next = group_step(graph, walk);
    let place = walk.stack.len() - 1;
    lemma_group_step_shape(graph, walk);
    if next.seen != walk.seen {
        lemma_seen_after_push(walk.seen, next.seen.last(), chunk);
        assert(next.seen =~= walk.seen.push(next.seen.last()));
    }
    if !walk.seen.contains(chunk) {
        let t = choose|t: int| 0 <= t < walk.stack.len() && walk.stack[t] == ChunkFrame::Visit(chunk);
        if t < place {
            assert(next.stack[t] == ChunkFrame::Visit(chunk));
        }
    }
}

/// A step of a walk that leaves no chunk child out leads to such a walk.
proof fn lemma_group_step_leaves_no_child_out(graph: &AssetGraph, walk: GroupWalk)
    requires
        leaves_no_child_out(graph, walk),
        walk.stack.len() > 0,
    ensures
        leaves_no_child_out(graph, group_step(graph, walk)),
{
    let next = group_step(graph, walk);
    let place = walk.stack.len() - 1;
    let last = frame_chunk(walk.stack[place]);
    let children = chunk_children(graph, last);
    lemma_group_step_shape(graph, walk);
    if !has_record(graph, last) {
        lemma_children_need_a_record(graph, last);
    }
    assert forall|i: int, child: Chunk|
        0 <= i < next.emitted.len() && #[trigger] chunk_children(graph, next.emitted[i]).contains(
            child,
        ) implies next.seen.contains(child) || next.stack.contains(ChunkFrame::Visit(child)) by {
        if i < walk.emitted.len() {
            assert(next.emitted[i] == walk.emitted[i]);
        } else {
            assert(next.emitted[i] == last);
            assert(walk.stack[place] is Emit);
        }
        lemma_group_step_keeps_in_hand(graph, walk, child);
    }
    assert forall|s: int, child: Chunk|
        0 <= s < next.stack.len() && next.stack[s] is Emit && #[trigger] chunk_children(
            graph,
            frame_chunk(next.stack[s]),
        ).contains(child) implies next.seen.contains(child) || next.stack.contains(
        ChunkFrame::Visit(child),
    ) by {
        if s < place {
            assert(next.stack[s] == walk.stack[s]);
            lemma_group_step_keeps_in_hand(graph, walk, child);
        } else if s == place {
            let m = choose|m: int| 0 <= m < children.len() && children[m] == child;
            let t = place + 1 + (children.len() - 1 - m);
            assert(next.stack[t] == waiting(children)[t - place - 1]);
            assert(next.stack[t] == ChunkFrame::Visit(child));
        }
    }
}

/// Every chunk of a path is listed by a walk that has ended, holds each
/// chunk once and leaves no chunk child out.
proof fn lemma_chunk_paths_are_listed(
    graph: &AssetGraph,
    group: ChunkGroupView,
    end: GroupWalk,
    path: Seq<Chunk>,
    upto: int,
)
    requires
        end.stack.len() == 0,
        holds_each_chunk_once(end),
        reaches(end, root_chunks(group)),
        leaves_no_child_out(graph, end),
        is_chunk_path(graph, group, path),
        0 <= upto < path.len(),
    ensures
        end.emitted.contains(path[upto]),
    decreases upto,
{
    if upto == 0 {
        let roots = root_chunks(group);
        let k = choose|k: int| 0 <= k < roots.len() && roots[k] == path[0];
        assert(end.seen.contains(roots[k]));
    } else {
        lemma_chunk_paths_are_listed(graph, group, end, path, upto - 1);
        let i = choose|i: int| 0 <= i < end.emitted.len() && end.emitted[i] == path[upto - 1];
        assert(chunk_children(graph, path[upto - 1]).contains(path[upto]));
        assert(end.seen.contains(path[upto]));
    }
}

/// Nothing that is reached is left out: every chunk that is reached from
/// the root chunks of a group is among the chunks of the group.
pub proof fn lemma_reached_chunks_are_listed(
    graph: &AssetGraph,
    group: ChunkGroupView,
    chunk: Chunk,
)
    requires
        is_chunk_reached(graph, group, chunk),
    ensures
        chunks_of_group(graph, group).contains(chunk),
{
    let roots = root_chunks(group);
    let begin = GroupWalk { stack: waiting(roots), seen: Seq::empty(), emitted: Seq::empty() };
    let kept = |w: GroupWalk| leaves_no_child_out(graph, w);
    assert forall|w: GroupWalk| kept(w) && w.stack.len() > 0 implies #[trigger] kept(
        group_step(graph, w),
    ) by {
        lemma_group_step_leaves_no_child_out(graph, w);
    }
    lemma_group_run_keeps(graph, begin, kept);
    lemma_group_walk_ends_well(graph, group);
    let end = group_run(graph, begin);
    let path = choose|path: Seq<Chunk>| #[trigger]
        is_chunk_path(graph, group, path) && path.last() == chunk;
    lemma_chunk_paths_are_listed(graph, group, end, path, path.len() - 1);
}

/// Whether the chunk is among the first `upto` that were handed out.
pub open spec fn is_listed(emitted: Seq<Chunk>, upto: int, chunk: Chunk) -> bool {
    exists|j: int| 0 <= j < upto && j < emitted.len() && #[trigger] emitted[j] == chunk
}

/// Whether the chunk waits on the stack above the given place.
pub open spec fn chunk_waits_above(stack: Seq<ChunkFrame>, place: int, chunk: Chunk) -> bool {
    exists|t: int| place < t < stack.len() && frame_chunk(#[trigger] stack[t]) == chunk
}

/// Whether a walk over chunks is in order.
///
/// Each chunk that was handed out came after its chunk children. Each
/// chunk that is put off has its chunk children handed out already or
/// waiting above it. Whatever lies above a chunk that is put off ranks
/// below it.
pub open spec fn is_group_in_order(
    graph: &AssetGraph,
    rank: spec_fn(Chunk) -> nat,
    walk: GroupWalk,
) -> bool {
    &&& forall|i: int, child: Chunk|
        0 <= i < walk.emitted.len() && #[trigger] chunk_children(
            graph,
            walk.emitted[i],
        ).contains(child) ==> is_listed(walk.emitted, i, child)
    &&& forall|s: int, child: Chunk|
        0 <= s < walk.stack.len() && walk.stack[s] is Emit && #[trigger] chunk_children(
            graph,
            frame_chunk(walk.stack[s]),
        ).contains(child) ==> is_listed(walk.emitted, walk.emitted.len() as int, child)
            || chunk_waits_above(walk.stack, s, child)
    &&& forall|s: int, t: int|
        0 <= s < t < walk.stack.len() && (#[trigger] walk.stack[s]) is Emit ==> rank(
            frame_chunk(#[trigger] walk.stack[t]),
        ) < rank(frame_chunk(walk.stack[s]))
}

/// A chunk without a record has no chunk children.
proof fn lemma_children_need_a_record(graph: &AssetGraph, chunk: Chunk)
    requires
        !has_record(graph, chunk),
    ensures
        chunk_children(graph, chunk) == Seq::<Chunk>::empty(),
{
}

/// A step of a walk that holds each chunk once and is in order leads to a
/// walk that is in order, where no chunk loads itself through others.
proof fn lemma_group_step_keeps_order(
    graph: &AssetGraph,
    group: ChunkGroupView,
    rank: spec_fn(Chunk) -> nat,
    walk: GroupWalk,
)
    requires
        holds_each_chunk_once(walk),
        holds_reached_chunks_only(graph, group, walk),
        is_group_in_order(graph, rank, walk),
        is_chunk_ranking(graph, group, rank),
        walk.stack.len() > 0,
    ensures
        is_group_in_order(graph, rank, group_step(graph, walk)),
{
    let next = group_step(graph, walk);
    let place = walk.stack.len() - 1;
    let top = walk.stack[place];
    let last = frame_chunk(top);
    let done = walk.emitted.len() as int;
    let children = chunk_children(graph, last);
    lemma_group_step_shape(graph, walk);
    if !has_record(graph, last) {
        lemma_children_need_a_record(graph, last);
    }
    assert forall|i: int, child: Chunk|
        0 <= i < next.emitted.len() && #[trigger] chunk_children(graph, next.emitted[i]).contains(
            child,
        ) implies is_listed(next.emitted, i, child) by {
        if i < done {
            assert(next.emitted[i] == walk.emitted[i]);
            assert(is_listed(walk.emitted, i, child));
            let j = choose|j: int| 0 <= j < i && j < done && #[trigger] walk.emitted[j] == child;
            assert(next.emitted[j] == child);
        } else {
            assert(next.emitted[i] == last);
            assert(top is Emit);
            assert(!chunk_waits_above(walk.stack, place, child));
            let j = choose|j: int| 0 <= j < done && #[trigger] walk.emitted[j] == child;
            assert(next.emitted[j] == child);
        }
    }
    assert forall|s: int, t: int|
        0 <= s < t < next.stack.len() && (#[trigger] next.stack[s]) is Emit implies rank(
        frame_chunk(#[trigger] next.stack[t]),
    ) < rank(frame_chunk(next.stack[s])) by {
        if t < place {
            assert(next.stack[s] == walk.stack[s]);
            assert(next.stack[t] == walk.stack[t]);
        } else if t == place {
            assert(next.stack[s] == walk.stack[s]);
        } else {
            let m = children.len() - 1 - (t - place - 1);
            assert(next.stack[t] == waiting(children)[t - place - 1]);
            assert(frame_chunk(next.stack[t]) == children[m]);
            assert(is_chunk_reached(graph, group, frame_chunk(walk.stack[place])));
            assert(children.contains(children[m]));
            if s < place {
                assert(next.stack[s] == walk.stack[s]);
            } else if s > place {
                assert(next.stack[s] == waiting(children)[s - place - 1]);
            }
        }
    }
    assert forall|s: int, child: Chunk|
        0 <= s < next.stack.len() && next.stack[s] is Emit && #[trigger] chunk_children(
            graph,
            frame_chunk(next.stack[s]),
        ).contains(child) implies is_listed(next.emitted, next.emitted.len() as int, child)
        || chunk_waits_above(next.stack, s, child) by {
        if s < place {
            assert(next.stack[s] == walk.stack[s]);
            if is_listed(walk.emitted, done, child) {
                let j = choose|j: int| 0 <= j < done && #[trigger] walk.emitted[j] == child;
                assert(next.emitted[j] == child);
            } else {
                assert(chunk_waits_above(walk.stack, s, child));
                let t = choose|t: int|
                    s < t < walk.stack.len() && frame_chunk(#[trigger] walk.stack[t]) == child;
                if t < place {
                    assert(next.stack[t] == walk.stack[t]);
                } else if next.stack.len() > place {
                    assert(frame_chunk(next.stack[place]) == child);
                } else if next.emitted.len() > done {
                    assert(next.emitted[done] == child);
                } else {
                    // The chunk on top was dropped: it has been looked at.
                    assert(walk.seen.contains(child));
                    if walk.emitted.contains(child) {
                        let j = choose|j: int| 0 <= j < done && walk.emitted[j] == child;
                        assert(next.emitted[j] == child);
                    } else {
                        // A chunk that is put off ranks above the chunk on
                        // top, so it is not that chunk.
                        let held = choose|h: int|
                            0 <= h < walk.stack.len() && walk.stack[h] == ChunkFrame::Emit(child);
                        assert(walk.stack[held] is Emit);
                        assert(held < place);
                    }
                }
            }
        } else if s == place {
            let m = choose|m: int| 0 <= m < children.len() && children[m] == child;
            let t = place + 1 + (children.len() - 1 - m);
            assert(next.stack[t] == waiting(children)[t - place - 1]);
        }
    }
}

/// The order of the chunks of a group: where the chunks that are reached
/// from its root chunks load each other in parallel without a cycle, each
/// chunk of a group is listed after its chunk children. Returns the place
/// of the chunk child.
pub proof fn lemma_chunks_of_group_follow_their_children(
    graph: &AssetGraph,
    group: ChunkGroupView,
    rank: spec_fn(Chunk) -> nat,
    index: int,
    child: Chunk,
) -> (before: int)
    requires
        is_chunk_ranking(graph, group, rank),
        0 <= index < chunks_of_group(graph, group).len(),
        chunk_children(graph, chunks_of_group(graph, group)[index]).contains(child),
    ensures
        0 <= before < index,
        chunks_of_group(graph, group)[before] == child,
{
    let roots = root_chunks(group);
    let begin = GroupWalk { stack: waiting(roots), seen: Seq::empty(), emitted: Seq::empty() };
    let kept = |w: GroupWalk|
        holds_each_chunk_once(w) && holds_reached_chunks_only(graph, group, w)
            && is_group_in_order(graph, rank, w);
    lemma_group_start_holds_reached_only(graph, group);
    assert forall|w: GroupWalk| kept(w) && w.stack.len() > 0 implies #[trigger] kept(
        group_step(graph, w),
    ) by {
        lemma_group_step_keeps_each_chunk_once(graph, w);
        lemma_group_step_keeps_reached_only(graph, group, w);
        lemma_group_step_keeps_order(graph, group, rank, w);
    }
    lemma_group_run_keeps(graph, begin, kept);
    let end = group_run(graph, begin);
    assert(is_listed(end.emitted, index, child));
    choose|j: int| 0 <= j < index && j < end.emitted.len() && #[trigger] end.emitted[j] == child
}

} // verus!
