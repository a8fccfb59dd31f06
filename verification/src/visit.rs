use crate::availability::AssetId;
use crate::chunking_type::ChunkingType;
use crate::classify::{edges_match, reference_edges, reference_to_graph_nodes};
use crate::context::ChunkingContext;
use crate::graph::{AssetGraph, ReferenceId};
use crate::node::{ChunkContentContext, ChunkContentEdge, ChunkContentGraphNode, ChunkingError};
use vstd::prelude::*;

verus! {

/// The maximum number of chunk items that can be in a chunk before it is
/// split into multiple chunks.
pub const MAX_CHUNK_ITEMS_COUNT: usize = 5000;

/// For one asset, the chunking types under which the walk has reached it.
#[derive(Clone, Copy, Debug, PartialEq, Eq, Hash, Structural)]
pub struct ProcessedFlags {
    pub placed: bool,
    pub placed_or_parallel: bool,
    pub parallel: bool,
    pub isolated_parallel: bool,
    pub separate: bool,
    pub separate_async: bool,
}

impl ProcessedFlags {
    /// Whether the asset has been reached under the chunking type.
    pub open spec fn has(&self, chunking_type: ChunkingType) -> bool {
        match chunking_type {
            ChunkingType::Placed => self.placed,
            ChunkingType::PlacedOrParallel => self.placed_or_parallel,
            ChunkingType::Parallel => self.parallel,
            ChunkingType::IsolatedParallel => self.isolated_parallel,
            ChunkingType::Separate => self.separate,
            ChunkingType::SeparateAsync => self.separate_async,
        }
    }

    /// The flags after the asset has been reached under the chunking type.
    pub open spec fn with(&self, chunking_type: ChunkingType) -> ProcessedFlags {
        match chunking_type {
            ChunkingType::Placed => ProcessedFlags { placed: true, ..*self },
            ChunkingType::PlacedOrParallel => ProcessedFlags { placed_or_parallel: true, ..*self },
            ChunkingType::Parallel => ProcessedFlags { parallel: true, ..*self },
            ChunkingType::IsolatedParallel => ProcessedFlags { isolated_parallel: true, ..*self },
            ChunkingType::Separate => ProcessedFlags { separate: true, ..*self },
            ChunkingType::SeparateAsync => ProcessedFlags { separate_async: true, ..*self },
        }
    }

    /// The number of chunking types under which the asset has not been
    /// reached.
    pub open spec fn missing(&self) -> nat {
        let a: nat = if self.placed { 0 } else { 1 };
        let b: nat = if self.placed_or_parallel { 0 } else { 1 };
        let c: nat = if self.parallel { 0 } else { 1 };
        let d: nat = if self.isolated_parallel { 0 } else { 1 };
        let e: nat = if self.separate { 0 } else { 1 };
        let f: nat = if self.separate_async { 0 } else { 1 };
        a + b + c + d + e + f
    }

    pub open spec fn none() -> ProcessedFlags {
        ProcessedFlags {
            placed: false,
            placed_or_parallel: false,
            parallel: false,
            isolated_parallel: false,
            separate: false,
            separate_async: false,
        }
    }

    fn get(&self, chunking_type: ChunkingType) -> (r: bool)
        ensures
            r == self.has(chunking_type),
    {
        match chunking_type {
            ChunkingType::Placed => self.placed,
            ChunkingType::PlacedOrParallel => self.placed_or_parallel,
            ChunkingType::Parallel => self.parallel,
            ChunkingType::IsolatedParallel => self.isolated_parallel,
            ChunkingType::Separate => self.separate,
            ChunkingType::SeparateAsync => self.separate_async,
        }
    }

    fn set(&self, chunking_type: ChunkingType) -> (r: ProcessedFlags)
        ensures
            r == self.with(chunking_type),
    {
        let mut flags = *self;
        match chunking_type {
            ChunkingType::Placed => flags.placed = true,
            ChunkingType::PlacedOrParallel => flags.placed_or_parallel = true,
            ChunkingType::Parallel => flags.parallel = true,
            ChunkingType::IsolatedParallel => flags.isolated_parallel = true,
            ChunkingType::Separate => flags.separate = true,
            ChunkingType::SeparateAsync => flags.separate_async = true,
        }
        flags
    }
}

/// Whether the key `(asset, chunking_type)` has been recorded.
pub open spec fn is_processed(
    processed: Seq<ProcessedFlags>,
    asset: AssetId,
    chunking_type: ChunkingType,
) -> bool {
    asset < processed.len() && processed[asset as int].has(chunking_type)
}

/// The record after the key `(asset, chunking_type)` has been added to it.
pub open spec fn with_processed(
    processed: Seq<ProcessedFlags>,
    asset: AssetId,
    chunking_type: ChunkingType,
) -> Seq<ProcessedFlags> {
    if asset < processed.len() {
        processed.update(asset as int, processed[asset as int].with(chunking_type))
    } else {
        processed
    }
}

/// The number of keys that have not been recorded. Each chunk item that the
/// walk expands uses up one of them, which is why every walk ends.
pub open spec fn unprocessed(processed: Seq<ProcessedFlags>) -> nat
    decreases processed.len(),
{
    if processed.len() == 0 {
        0
    } else {
        unprocessed(processed.drop_last()) + processed.last().missing()
    }
}

/// Recording a key that was not recorded leaves fewer keys unrecorded.
pub proof fn lemma_recording_uses_up_a_key(
    processed: Seq<ProcessedFlags>,
    asset: AssetId,
    chunking_type: ChunkingType,
)
    requires
        asset < processed.len(),
        !is_processed(processed, asset, chunking_type),
    ensures
        unprocessed(with_processed(processed, asset, chunking_type)) < unprocessed(processed),
    decreases processed.len(),
{
    let after = with_processed(processed, asset, chunking_type);
    if asset == processed.len() - 1 {
        assert(after.drop_last() =~= processed.drop_last());
    } else {
        lemma_recording_uses_up_a_key(processed.drop_last(), asset, chunking_type);
        assert(after.drop_last() =~= with_processed(
            processed.drop_last(),
            asset,
            chunking_type,
        ));
    }
}

/// The keys `(asset, chunking_type)` under which a walk has passed an edge,
/// for the assets of one graph.
pub struct ProcessedAssets {
    flags: Vec<ProcessedFlags>,
}

impl View for ProcessedAssets {
    type V = Seq<ProcessedFlags>;

    closed spec fn view(&self) -> Seq<ProcessedFlags> {
        self.flags@
    }
}

impl ProcessedAssets {
    /// The empty record for a graph of `assets` assets.
    pub fn new(assets: usize) -> (r: Self)
        ensures
            r@ == Seq::new(assets as nat, |i: int| ProcessedFlags::none()),
    {
        let mut flags: Vec<ProcessedFlags> = Vec::new();
        let mut i: usize = 0;
        while i < assets
            invariant
                i <= assets,
                flags@ == Seq::new(i as nat, |i: int| ProcessedFlags::none()),
            decreases assets - i,
        {
            flags.push(
                ProcessedFlags {
                    placed: false,
                    placed_or_parallel: false,
                    parallel: false,
                    isolated_parallel: false,
                    separate: false,
                    separate_async: false,
                },
            );
            i += 1;
            assert(flags@ =~= Seq::new(i as nat, |i: int| ProcessedFlags::none()));
        }
        ProcessedAssets { flags }
    }

    /// Records the key. Returns whether the key is new: whether it names an
    /// asset of the graph and was not recorded before.
    pub fn insert(&mut self, asset: AssetId, chunking_type: ChunkingType) -> (r: bool)
        ensures
            r == (asset < old(self)@.len() && !is_processed(old(self)@, asset, chunking_type)),
            final(self)@ == with_processed(old(self)@, asset, chunking_type),
    {
        if asset >= self.flags.len() {
            return false;
        }
        let flags = self.flags[asset];
        if flags.get(chunking_type) {
            assert(self.flags@ =~= with_processed(self.flags@, asset, chunking_type));
            return false;
        }
        self.flags[asset] = flags.set(chunking_type);
        true
    }
}

/// What the walk does with an edge.
#[derive(Clone, Copy, Debug, PartialEq, Eq, Hash, Structural)]
pub enum VisitControlFlow {
    /// The node is kept, and its own edges are followed.
    Continue(ChunkContentGraphNode),
    /// The edge has been passed before: the node is dropped.
    Skip(ChunkContentGraphNode),
    /// The walk is given up.
    Abort,
}

/// The key by which an edge is told from its duplicates: the key of the
/// edge, where it names an asset of the graph.
pub open spec fn dedup_key(processed: Seq<ProcessedFlags>, edge: ChunkContentEdge) -> Option<
    (AssetId, ChunkingType),
> {
    match edge.key {
        Some((asset, chunking_type)) => if asset < processed.len() {
            edge.key
        } else {
            None
        },
        None => None,
    }
}

/// Whether an edge is passed for the first time: it has a key that has not
/// been recorded.
pub open spec fn is_fresh(processed: Seq<ProcessedFlags>, edge: ChunkContentEdge) -> bool {
    match dedup_key(processed, edge) {
        Some((asset, chunking_type)) => !is_processed(processed, asset, chunking_type),
        None => false,
    }
}

/// The record of keys after the visit of an edge.
pub open spec fn processed_after(
    processed: Seq<ProcessedFlags>,
    edge: ChunkContentEdge,
) -> Seq<ProcessedFlags> {
    match dedup_key(processed, edge) {
        Some((asset, chunking_type)) => with_processed(processed, asset, chunking_type),
        None => processed,
    }
}

/// The number of chunk items after the visit of an edge: a chunk item that
/// is passed for the first time is counted. The count stops at the largest
/// number there is.
pub open spec fn count_after(
    processed: Seq<ProcessedFlags>,
    count: usize,
    edge: ChunkContentEdge,
) -> usize {
    if is_fresh(processed, edge) && edge.node is ChunkItem && count < usize::MAX {
        (count + 1) as usize
    } else {
        count
    }
}

/// The decision on an edge.
///
/// An edge without a key is followed. An edge whose key has been recorded
/// is skipped. Any other edge is followed, unless it brings the number of
/// chunk items of a chunk that is not being split up to the limit: then the
/// walk is given up.
pub open spec fn decision(
    split: bool,
    processed: Seq<ProcessedFlags>,
    count: usize,
    edge: ChunkContentEdge,
) -> VisitControlFlow {
    if dedup_key(processed, edge) is None {
        VisitControlFlow::Continue(edge.node)
    } else if !is_fresh(processed, edge) {
        VisitControlFlow::Skip(edge.node)
    } else if edge.node is ChunkItem && !split && count_after(processed, count, edge)
        >= MAX_CHUNK_ITEMS_COUNT {
        VisitControlFlow::Abort
    } else {
        VisitControlFlow::Continue(edge.node)
    }
}

/// The edges that leave a chunk item with the given references: those of
/// each reference, in the order of the references. The first reference that
/// fails decides the error.
pub open spec fn references_edges(
    graph: &AssetGraph,
    chunking_context: &ChunkingContext,
    context: ChunkContentContext,
    references: Seq<ReferenceId>,
) -> Result<Seq<ChunkContentEdge>, ChunkingError>
    decreases references.len(),
{
    if references.len() == 0 {
        Ok(Seq::empty())
    } else {
        match references_edges(graph, chunking_context, context, references.drop_last()) {
            Err(error) => Err(error),
            Ok(before) => match reference_edges(
                graph,
                chunking_context,
                context,
                references.last(),
            ) {
                Err(error) => Err(error),
                Ok(edges) => Ok(before + edges),
            },
        }
    }
}

/// The edges that leave a node: those of its references where it is a chunk
/// item, and none for any other node. Where the references of the chunk
/// item could not be had, the failure is the error.
pub open spec fn node_edges(
    graph: &AssetGraph,
    chunking_context: &ChunkingContext,
    context: ChunkContentContext,
    node: ChunkContentGraphNode,
) -> Result<Seq<ChunkContentEdge>, ChunkingError> {
    match node {
        ChunkContentGraphNode::ChunkItem(item) => match graph.references_failure(item) {
            Some(failure) => Err(ChunkingError::Failed { failure }),
            None => references_edges(graph, chunking_context, context, graph.references_of(item)),
        },
        _ => Ok(Seq::empty()),
    }
}

/// The state of the walk over the content of one chunk.
pub struct ChunkContentVisit {
    pub context: ChunkContentContext,
    pub chunk_items_count: usize,
    pub processed_assets: ProcessedAssets,
}

impl ChunkContentVisit {
    /// The state before the first edge, for a graph of `assets` assets.
    pub fn new(context: ChunkContentContext, assets: usize) -> (r: Self)
        ensures
            r.context == context,
            r.chunk_items_count == 0,
            r.processed_assets@ == Seq::new(assets as nat, |i: int| ProcessedFlags::none()),
    {
        ChunkContentVisit {
            context,
            chunk_items_count: 0,
            processed_assets: ProcessedAssets::new(assets),
        }
    }

    /// Whether the edge leads to a chunk item that has not been passed
    /// under the key of the edge.
    pub fn expands(&self, edge: &ChunkContentEdge) -> (r: bool)
        ensures
            r == (is_fresh(self.processed_assets@, *edge) && edge.node is ChunkItem),
    {
        let ChunkContentGraphNode::ChunkItem(_) = edge.node else {
            return false;
        };
        match edge.key {
            Some((asset, chunking_type)) => asset < self.processed_assets.flags.len()
                && !self.processed_assets.flags[asset].get(chunking_type),
            None => false,
        }
    }

    /// Decides on an edge, and records its key and its chunk item. The key
    /// names an asset of the graph that the state was made for.
    pub fn visit(&mut self, edge: ChunkContentEdge) -> (r: VisitControlFlow)
        requires
            match edge.key {
                Some((asset, _)) => asset < old(self).processed_assets@.len(),
                None => true,
            },
        ensures
            r == decision(
                old(self).context.split,
                old(self).processed_assets@,
                old(self).chunk_items_count,
                edge,
            ),
            final(self).context == old(self).context,
            final(self).processed_assets@ == processed_after(old(self).processed_assets@, edge),
            final(self).chunk_items_count == count_after(
                old(self).processed_assets@,
                old(self).chunk_items_count,
                edge,
            ),
    {
        let Some((asset, chunking_type)) = edge.key else {
            return VisitControlFlow::Continue(edge.node);
        };
        if !self.processed_assets.insert(asset, chunking_type) {
            return VisitControlFlow::Skip(edge.node);
        }
        if let ChunkContentGraphNode::ChunkItem(_) = edge.node {
            if self.chunk_items_count < usize::MAX {
                self.chunk_items_count += 1;
            }
            // Make sure the chunk doesn't become too large.
            if !self.context.split && self.chunk_items_count >= MAX_CHUNK_ITEMS_COUNT {
                // The chunk is too large: the caller starts again, splitting.
                return VisitControlFlow::Abort;
            }
        }
        VisitControlFlow::Continue(edge.node)
    }

    /// Computes the edges that leave a node.
    pub fn edges(
        &self,
        graph: &AssetGraph,
        chunking_context: &ChunkingContext,
        node: &ChunkContentGraphNode,
    ) -> (r: Result<Vec<ChunkContentEdge>, ChunkingError>)
        ensures
            edges_match(r, node_edges(graph, chunking_context, self.context, *node)),
    {
        let mut edges: Vec<ChunkContentEdge> = Vec::new();
        let ChunkContentGraphNode::ChunkItem(item) = node else {
            return Ok(edges);
        };
        let Some(chunk_item) = graph.chunk_item(*item) else {
            return Ok(edges);
        };
        if let Some(failure) = chunk_item.failure {
            return Err(ChunkingError::Failed { failure });
        }
        let references = chunk_item.references();
        let ghost all = graph.references_of(*item);
        let mut i: usize = 0;
        while i < references.len()
            invariant
                i <= all.len(),
                all == references@,
                all == graph.references_of(*item),
                graph.references_failure(*item) is None,
                *node == ChunkContentGraphNode::ChunkItem(*item),
                references_edges(graph, chunking_context, self.context, all.take(i as int)) == Ok::<
                    Seq<ChunkContentEdge>,
                    ChunkingError,
                >(edges@),
            decreases all.len() - i,
        {
            proof {
                assert(all.take(i + 1).drop_last() =~= all.take(i as int));
                assert(all.take(i + 1).last() == all[i as int]);
            }
            match reference_to_graph_nodes(graph, chunking_context, self.context, references[i]) {
                Err(error) => {
                    proof {
                        lemma_references_edges_fail_on(
                            graph,
                            chunking_context,
                            self.context,
                            all,
                            i + 1,
                        );
                    }
                    return Err(error);
                },
                Ok(found) => {
                    let ghost before = edges@;
                    let mut j: usize = 0;
                    while j < found.len()
                        invariant
                            j <= found@.len(),
                            edges@ == before + found@.take(j as int),
                        decreases found@.len() - j,
                    {
                        edges.push(found[j]);
                        j += 1;
                        assert(edges@ =~= before + found@.take(j as int));
                    }
                    assert(found@.take(found@.len() as int) =~= found@);
                },
            }
            i += 1;
        }
        assert(all.take(all.len() as int) =~= all);
        Ok(edges)
    }
}

/// Once the references up to some point fail, all of them together fail in
/// the same way.
pub proof fn lemma_references_edges_fail_on(
    graph: &AssetGraph,
    chunking_context: &ChunkingContext,
    context: ChunkContentContext,
    references: Seq<ReferenceId>,
    upto: int,
)
    requires
        0 <= upto <= references.len(),
        references_edges(graph, chunking_context, context, references.take(upto)) is Err,
    ensures
        references_edges(graph, chunking_context, context, references) == references_edges(
            graph,
            chunking_context,
            context,
            references.take(upto),
        ),
    decreases references.len() - upto,
{
    if upto == references.len() {
        assert(references.take(upto) =~= references);
    } else {
        assert(references.take(upto + 1).drop_last() =~= references.take(upto));
        lemma_references_edges_fail_on(graph, chunking_context, context, references, upto + 1);
    }
}

} // verus!
