use crate::availability::{AssetId, AvailabilityInfo};
use crate::chunk_graph::{
    chunk_children, chunk_record, get_chunk_children, has_record, is_record_of,
};
use crate::context::{ChunkingContext, ChunkingContextId};
use crate::graph::{root_chunk, AssetGraph, Chunk, ChunkRecord, ChunkableAsset};
use vstd::prelude::*;

verus! {

/// The assets that are evaluated when a chunk group has been loaded, in the
/// order in which they are evaluated.
#[derive(Debug, PartialEq, Eq)]
pub struct EvaluatableAssets {
    pub assets: Vec<AssetId>,
}

impl View for EvaluatableAssets {
    type V = Seq<AssetId>;

    open spec fn view(&self) -> Seq<AssetId> {
        self.assets@
    }
}

impl EvaluatableAssets {
    /// No assets.
    pub fn empty() -> (r: Self)
        ensures
            r@ == Seq::<AssetId>::empty(),
    {
        EvaluatableAssets { assets: Vec::new() }
    }

    /// These assets, followed by `entry`.
    pub fn with_entry(&self, entry: AssetId) -> (r: Self)
        ensures
            r@ == self@.push(entry),
    {
        let mut assets: Vec<AssetId> = Vec::new();
        let mut i: usize = 0;
        while i < self.assets.len()
            invariant
                i <= self@.len(),
                assets@ == self@.take(i as int),
            decreases self@.len() - i,
        {
            assets.push(self.assets[i]);
            i += 1;
            assert(assets@ =~= self@.take(i as int));
        }
        assert(self@.take(self@.len() as int) =~= self@);
        assets.push(entry);
        EvaluatableAssets { assets }
    }

    pub fn is_empty(&self) -> (r: bool)
        ensures
            r == (self@.len() == 0),
    {
        self.assets.len() == 0
    }
}

/// The chunks that must be loaded together to run an entry, and the assets
/// that are evaluated once they are loaded: a chunking context, an entry
/// chunk, and the assets to evaluate in their order.
#[derive(Debug, PartialEq, Eq)]
pub struct ChunkGroup {
    pub chunking_context: ChunkingContextId,
    pub entry: Chunk,
    pub evaluatable_assets: EvaluatableAssets,
}

/// A chunk group as a value.
pub struct ChunkGroupView {
    pub chunking_context: ChunkingContextId,
    pub entry: Chunk,
    pub evaluatable_assets: Seq<AssetId>,
}

impl View for ChunkGroup {
    type V = ChunkGroupView;

    open spec fn view(&self) -> ChunkGroupView {
        ChunkGroupView {
            chunking_context: self.chunking_context,
            entry: self.entry,
            evaluatable_assets: self.evaluatable_assets@,
        }
    }
}

/// The chunk group for a context that starts at a chunk and evaluates
/// nothing.
pub open spec fn group_of_chunk(chunking_context: ChunkingContextId, entry: Chunk) -> ChunkGroupView {
    ChunkGroupView { chunking_context, entry, evaluatable_assets: Seq::empty() }
}

impl ChunkGroup {
    /// Creates a chunk group from an asset as entrypoint.
    pub fn from_asset(
        asset: ChunkableAsset,
        chunking_context: &ChunkingContext,
        availability_info: AvailabilityInfo,
    ) -> (r: Self)
        ensures
            r@ == group_of_chunk(
                chunking_context.id,
                Chunk {
                    asset: asset.asset,
                    chunking_context: chunking_context.id,
                    availability_info,
                },
            ),
    {
        Self::from_chunk(chunking_context, asset.as_chunk(chunking_context, availability_info))
    }

    /// Creates a chunk group from a chunk as entrypoint.
    pub fn from_chunk(chunking_context: &ChunkingContext, entry: Chunk) -> (r: Self)
        ensures
            r@ == group_of_chunk(chunking_context.id, entry),
    {
        ChunkGroup {
            chunking_context: chunking_context.id,
            entry,
            evaluatable_assets: EvaluatableAssets::empty(),
        }
    }

    /// Creates a chunk group from the root chunk of `main_entry`, which
    /// evaluates `other_entries` and then `main_entry`: the main entry is
    /// evaluated once all other entries are.
    pub fn evaluated(
        chunking_context: &ChunkingContext,
        main_entry: ChunkableAsset,
        other_entries: &EvaluatableAssets,
    ) -> (r: Self)
        ensures
            r@.chunking_context == chunking_context.id,
            r@.entry == root_chunk(chunking_context.id, main_entry.asset),
            r@.evaluatable_assets == other_entries@.push(main_entry.asset),
    {
        ChunkGroup {
            chunking_context: chunking_context.id,
            entry: main_entry.as_root_chunk(chunking_context),
            evaluatable_assets: other_entries.with_entry(main_entry.asset),
        }
    }

    /// The entry chunk of this chunk group.
    pub fn entry(&self) -> (r: Chunk)
        ensures
            r == self@.entry,
    {
        self.entry
    }
}

/// A list of chunks.
#[derive(Debug, PartialEq, Eq)]
pub struct Chunks(pub Vec<Chunk>);

impl View for Chunks {
    type V = Seq<Chunk>;

    open spec fn view(&self) -> Seq<Chunk> {
        self.0@
    }
}

/// One piece of work that the walk over the chunks of a group has put off.
#[derive(Clone, Copy, Debug, PartialEq, Eq, Structural)]
pub enum ChunkFrame {
    /// A chunk that is still to be looked at.
    Visit(Chunk),
    /// A chunk whose children are being followed: it is handed out once all
    /// of them are done with.
    Emit(Chunk),
}

/// The state of a walk over the chunks of a group.
pub struct GroupWalk {
    /// The work that is put off; the last frame comes next.
    pub stack: Seq<ChunkFrame>,
    /// The chunks that have been looked at.
    pub seen: Seq<Chunk>,
    /// The chunks that have been handed out, in their order.
    pub emitted: Seq<Chunk>,
}

/// The frames for a list of chunks that are all still to be looked at. The
/// first chunk comes to lie on top.
pub open spec fn waiting(chunks: Seq<Chunk>) -> Seq<ChunkFrame> {
    Seq::new(chunks.len(), |i: int| ChunkFrame::Visit(chunks[chunks.len() - 1 - i]))
}

/// The number of records of the graph whose chunk has not been looked at.
/// Each chunk whose children the walk follows uses up one of them, which is
/// why every walk ends.
pub open spec fn unseen_records(records: Seq<ChunkRecord>, seen: Seq<Chunk>) -> nat
    decreases records.len(),
{
    if records.len() == 0 {
        0
    } else {
        unseen_records(records.drop_last(), seen) + if seen.contains(records.last().chunk) {
            0nat
        } else {
            1nat
        }
    }
}

/// A chunk is among the chunks looked at once another has been added if it
/// was among them before or is the one that was added.
pub proof fn lemma_seen_after_push(seen: Seq<Chunk>, chunk: Chunk, other: Chunk)
    ensures
        seen.push(chunk).contains(other) <==> seen.contains(other) || other == chunk,
{
    if seen.contains(other) {
        let i = choose|i: int| 0 <= i < seen.len() && seen[i] == other;
        assert(seen.push(chunk)[i] == other);
    }
    if other == chunk {
        assert(seen.push(chunk)[seen.len() as int] == other);
    }
}

/// Looking at a chunk leaves no more records unseen than before, and fewer
/// where the chunk is new and has a record.
pub proof fn lemma_seeing_uses_up_records(records: Seq<ChunkRecord>, seen: Seq<Chunk>, chunk: Chunk)
    ensures
        unseen_records(records, seen.push(chunk)) <= unseen_records(records, seen),
        !seen.contains(chunk) && (exists|k: int|
            0 <= k < records.len() && (#[trigger] records[k]).chunk == chunk) ==> unseen_records(
            records,
            seen.push(chunk),
        ) < unseen_records(records, seen),
    decreases records.len(),
{
    if records.len() > 0 {
        lemma_seeing_uses_up_records(records.drop_last(), seen, chunk);
        lemma_seen_after_push(seen, chunk, records.last().chunk);
        if !seen.contains(chunk) && (exists|k: int|
            0 <= k < records.len() && (#[trigger] records[k]).chunk == chunk) {
            let k = choose|k: int| 0 <= k < records.len() && (#[trigger] records[k]).chunk == chunk;
            if k < records.len() - 1 {
                assert(records.drop_last()[k].chunk == chunk);
            }
        }
    }
}

/// The state after the next piece of work has been done.
///
/// A chunk that is due is handed out. A chunk that is to be looked at and
/// has been looked at before is dropped. A new chunk of which the graph has
/// a record is put off until its chunk children are done with, and these
/// come next, in their order. A new chunk without a record is handed out at
/// once.
pub open spec fn group_step(graph: &AssetGraph, walk: GroupWalk) -> GroupWalk
    recommends
        walk.stack.len() > 0,
{
    let rest = walk.stack.drop_last();
    match walk.stack.last() {
        ChunkFrame::Emit(chunk) => GroupWalk {
            stack: rest,
            emitted: walk.emitted.push(chunk),
            ..walk
        },
        ChunkFrame::Visit(chunk) => if walk.seen.contains(chunk) {
            GroupWalk { stack: rest, ..walk }
        } else if has_record(graph, chunk) {
            GroupWalk {
                stack: rest.push(ChunkFrame::Emit(chunk)) + waiting(chunk_children(graph, chunk)),
                seen: walk.seen.push(chunk),
                ..walk
            }
        } else {
            GroupWalk {
                stack: rest,
                seen: walk.seen.push(chunk),
                emitted: walk.emitted.push(chunk),
            }
        },
    }
}

/// The state in which a walk over chunks ends: the walk goes on step by
/// step until no work is left.
pub open spec fn group_run(graph: &AssetGraph, walk: GroupWalk) -> GroupWalk
    decreases unseen_records(graph.chunks@, walk.seen), walk.stack.len(),
    via group_run_ends
{
    if walk.stack.len() > 0 {
        group_run(graph, group_step(graph, walk))
    } else {
        walk
    }
}

#[via_fn]
proof fn group_run_ends(graph: &AssetGraph, walk: GroupWalk) {
    if walk.stack.len() > 0 {
        lemma_group_step_uses_up_work(graph, walk);
    }
}

/// A step leaves fewer records unseen, or as many records and less work.
pub proof fn lemma_group_step_uses_up_work(graph: &AssetGraph, walk: GroupWalk)
    requires
        walk.stack.len() > 0,
    ensures
        ({
            let next = group_step(graph, walk);
            unseen_records(graph.chunks@, next.seen) < unseen_records(graph.chunks@, walk.seen)
                || (unseen_records(graph.chunks@, next.seen) == unseen_records(
                graph.chunks@,
                walk.seen,
            ) && next.stack.len() < walk.stack.len())
        }),
{
    match walk.stack.last() {
        ChunkFrame::Emit(_) => {},
        ChunkFrame::Visit(chunk) => {
            lemma_seeing_uses_up_records(graph.chunks@, walk.seen, chunk);
            if !walk.seen.contains(chunk) && has_record(graph, chunk) {
                let k = choose|k: int| is_record_of(graph.chunks@, chunk, k);
                assert(graph.chunks@[k].chunk == chunk);
            }
        },
    }
}

/// The chunks at which the walk over a group starts: the entry chunk, then
/// the root chunk, for the context of the group, of each asset that the
/// group evaluates.
pub open spec fn root_chunks(group: ChunkGroupView) -> Seq<Chunk> {
    seq![group.entry] + Seq::new(
        group.evaluatable_assets.len(),
        |i: int| root_chunk(group.chunking_context, group.evaluatable_assets[i]),
    )
}

/// The chunks of a group: the root chunks and every chunk that is reached
/// from them through references that load in parallel, each once, and each
/// after the chunk children that were reached from it.
pub open spec fn chunks_of_group(graph: &AssetGraph, group: ChunkGroupView) -> Seq<Chunk> {
    group_run(
        graph,
        GroupWalk {
            stack: waiting(root_chunks(group)),
            seen: Seq::empty(),
            emitted: Seq::empty(),
        },
    ).emitted
}

/// Whether the chunk is one of the list.
fn contains_chunk(chunks: &Vec<Chunk>, chunk: Chunk) -> (r: bool)
    ensures
        r == chunks@.contains(chunk),
{
    let mut i: usize = 0;
    while i < chunks.len()
        invariant
            i <= chunks@.len(),
            forall|j: int| 0 <= j < i ==> chunks@[j] != chunk,
        decreases chunks@.len() - i,
    {
        if chunks[i] == chunk {
            return true;
        }
        i += 1;
    }
    false
}

/// Puts the frames for a list of chunks on the stack, the first chunk on
/// top.
fn push_waiting(stack: &mut Vec<ChunkFrame>, chunks: &Vec<Chunk>)
    ensures
        final(stack)@ == old(stack)@ + waiting(chunks@),
{
    let ghost before = stack@;
    let mut left: usize = chunks.len();
    while left > 0
        invariant
            left <= chunks@.len(),
            stack@ == before + waiting(chunks@).take(chunks@.len() - left),
        decreases left,
    {
        left -= 1;
        stack.push(ChunkFrame::Visit(chunks[left]));
        assert(stack@ =~= before + waiting(chunks@).take(chunks@.len() - left));
    }
    assert(waiting(chunks@).take(chunks@.len() as int) =~= waiting(chunks@));
}

/// The assets that a chunk group puts out.
#[derive(Debug, PartialEq, Eq)]
pub struct GroupAssets {
    /// The chunks that the chunking context generates, in their order.
    pub chunks: Vec<Chunk>,
    /// The chunk that evaluates the entries of the group once the chunks
    /// are loaded, where there is one. It comes last.
    pub evaluate: Option<EvaluateChunk>,
}

/// The chunk that evaluates the entries of a chunk group.
#[derive(Debug, PartialEq, Eq)]
pub struct EvaluateChunk {
    /// The entry chunk of the group.
    pub entry: Chunk,
    /// The chunks of the group that were generated before this one.
    pub chunks: Vec<Chunk>,
    /// The assets that are evaluated, in the order in which they are.
    pub evaluatable_assets: Vec<AssetId>,
}

/// The assets that a chunk group puts out, as a value.
pub struct GroupAssetsView {
    pub chunks: Seq<Chunk>,
    pub evaluate: Option<EvaluateChunkView>,
}

/// The chunk that evaluates the entries of a chunk group, as a value.
pub struct EvaluateChunkView {
    pub entry: Chunk,
    pub chunks: Seq<Chunk>,
    pub evaluatable_assets: Seq<AssetId>,
}

impl View for EvaluateChunk {
    type V = EvaluateChunkView;

    open spec fn view(&self) -> EvaluateChunkView {
        EvaluateChunkView {
            entry: self.entry,
            chunks: self.chunks@,
            evaluatable_assets: self.evaluatable_assets@,
        }
    }
}

impl View for GroupAssets {
    type V = GroupAssetsView;

    open spec fn view(&self) -> GroupAssetsView {
        GroupAssetsView {
            chunks: self.chunks@,
            evaluate: match self.evaluate {
                Some(evaluate) => Some(evaluate@),
                None => None,
            },
        }
    }
}

/// The assets that a group puts out for the given chunks: one generated
/// chunk for each, in order, and then the chunk that evaluates the entries
/// of the group, where the group evaluates anything and the chunking
/// context can make such a chunk.
pub open spec fn assets_of_group(
    chunking_context: &ChunkingContext,
    group: ChunkGroupView,
    chunks: Seq<Chunk>,
) -> GroupAssetsView {
    GroupAssetsView {
        chunks,
        evaluate: if group.evaluatable_assets.len() > 0 && chunking_context.evaluates {
            Some(
                EvaluateChunkView {
                    entry: group.entry,
                    chunks,
                    evaluatable_assets: group.evaluatable_assets,
                },
            )
        } else {
            None
        },
    }
}

/// A copy of a list.
fn copy_of<T: Copy>(list: &Vec<T>) -> (r: Vec<T>)
    ensures
        r@ == list@,
{
    let mut copy: Vec<T> = Vec::new();
    let mut i: usize = 0;
    while i < list.len()
        invariant
            i <= list@.len(),
            copy@ == list@.take(i as int),
        decreases list@.len() - i,
    {
        copy.push(list[i]);
        i += 1;
        assert(copy@ =~= list@.take(i as int));
    }
    assert(list@.take(list@.len() as int) =~= list@);
    copy
}

impl ChunkGroup {
    /// Lists all chunks that are in this chunk group. These chunks need to
    /// be loaded to fulfill the chunk group, all of them in parallel. The
    /// list is what is handed to the optimizer of the chunks.
    pub fn chunks(&self, graph: &AssetGraph) -> (r: Chunks)
        ensures
            r@ == chunks_of_group(graph, self@),
    {
        let mut entry_chunks: Vec<Chunk> = Vec::new();
        entry_chunks.push(self.entry);
        let mut i: usize = 0;
        while i < self.evaluatable_assets.assets.len()
            invariant
                i <= self@.evaluatable_assets.len(),
                entry_chunks@ == root_chunks(self@).take(i + 1),
            decreases self@.evaluatable_assets.len() - i,
        {
            let evaluatable_asset = self.evaluatable_assets.assets[i];
            entry_chunks.push(
                Chunk {
                    asset: evaluatable_asset,
                    chunking_context: self.chunking_context,
                    availability_info: AvailabilityInfo::Root {
                        current_availability_root: evaluatable_asset,
                    },
                },
            );
            i += 1;
            assert(entry_chunks@ =~= root_chunks(self@).take(i + 1));
        }
        assert(root_chunks(self@).take(self@.evaluatable_assets.len() as int + 1) =~= root_chunks(
            self@,
        ));
        let ghost end = group_run(
            graph,
            GroupWalk {
                stack: waiting(root_chunks(self@)),
                seen: Seq::empty(),
                emitted: Seq::empty(),
            },
        );
        let mut stack: Vec<ChunkFrame> = Vec::new();
        let mut seen: Vec<Chunk> = Vec::new();
        let mut chunks: Vec<Chunk> = Vec::new();
        push_waiting(&mut stack, &entry_chunks);
        assert(stack@ =~= waiting(root_chunks(self@)));
        loop
            invariant
                end == group_run(
                    graph,
                    GroupWalk {
                        stack: waiting(root_chunks(self@)),
                        seen: Seq::empty(),
                        emitted: Seq::empty(),
                    },
                ),
                end == group_run(graph, GroupWalk { stack: stack@, seen: seen@, emitted: chunks@ }),
            decreases unseen_records(graph.chunks@, seen@), stack@.len(),
        {
            let ghost walk = GroupWalk { stack: stack@, seen: seen@, emitted: chunks@ };
            let Some(frame) = stack.pop() else {
                return Chunks(chunks);
            };
            let ghost next = group_step(graph, walk);
            proof {
                lemma_group_step_uses_up_work(graph, walk);
                assert(end == group_run(graph, next));
            }
            match frame {
                ChunkFrame::Emit(chunk) => {
                    chunks.push(chunk);
                },
                ChunkFrame::Visit(chunk) => {
                    if !contains_chunk(&seen, chunk) {
                        seen.push(chunk);
                        if chunk_record(graph, chunk).is_some() {
                            let children = get_chunk_children(graph, chunk);
                            stack.push(ChunkFrame::Emit(chunk));
                            push_waiting(&mut stack, &children);
                        } else {
                            chunks.push(chunk);
                        }
                    }
                },
            }
            assert(stack@ =~= next.stack);
        }
    }

    /// The assets that the group puts out, given its chunks as the
    /// optimizer has left them: the chunking context generates a chunk for
    /// each, and the chunk that evaluates the entries comes last. The
    /// context is the one that the group was made for.
    pub fn assets(&self, chunking_context: &ChunkingContext, chunks: &Chunks) -> (r: GroupAssets)
        requires
            chunking_context.id == self@.chunking_context,
        ensures
            r@ == assets_of_group(chunking_context, self@, chunks@),
    {
        let evaluate = if !self.evaluatable_assets.is_empty() && chunking_context.evaluates {
            Some(
                EvaluateChunk {
                    entry: self.entry,
                    chunks: copy_of(&chunks.0),
                    evaluatable_assets: copy_of(&self.evaluatable_assets.assets),
                },
            )
        } else {
            None
        };
        GroupAssets { chunks: copy_of(&chunks.0), evaluate }
    }
}

} // verus!
