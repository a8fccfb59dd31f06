use crate::availability::AssetId;
use crate::graph::{
    AssetGraph, AssetReference, Chunk, ChunkItemId, ParallelChunkReference, PrimaryResolveResult,
};
use crate::group::{ChunkGroup, GroupAssets, GroupAssetsView};
use crate::node::ChunkingError;
use vstd::prelude::*;
use vstd::string::StringExecFns;

verus! {

/// A list of chunk items.
#[derive(Debug, PartialEq, Eq)]
pub struct ChunkItems(pub Vec<ChunkItemId>);

/// The ident of an asset: that of its record in the graph, and the empty
/// string for an id that names no asset.
pub open spec fn ident_of(graph: &AssetGraph, asset: AssetId) -> Seq<char> {
    if graph.has_asset(asset) {
        graph.assets@[asset as int].ident@
    } else {
        Seq::empty()
    }
}

/// The ident of an asset.
fn ident(graph: &AssetGraph, asset: AssetId) -> (r: &str)
    ensures
        r@ == ident_of(graph, asset),
{
    match graph.asset(asset) {
        Some(record) => record.ident.as_str(),
        None => {
            let empty = "";
            proof {
                reveal_strlit("");
            }
            assert(empty@ =~= Seq::<char>::empty());
            empty
        },
    }
}

/// A reference to a [`Chunk`]. It can ask for the chunk to be loaded in
/// parallel with the chunk that holds the reference.
#[derive(Clone, Copy, Debug, PartialEq, Eq, Hash, Structural)]
pub struct ChunkReference {
    pub chunk: Chunk,
    pub parallel: bool,
}

impl ChunkReference {
    /// A reference to a chunk that is not loaded in parallel.
    pub fn new(chunk: Chunk) -> (r: Self)
        ensures
            r == (ChunkReference { chunk, parallel: false }),
    {
        ChunkReference { chunk, parallel: false }
    }

    /// A reference to a chunk that is loaded in parallel.
    pub fn new_parallel(chunk: Chunk) -> (r: Self)
        ensures
            r == (ChunkReference { chunk, parallel: true }),
    {
        ChunkReference { chunk, parallel: true }
    }

    /// The reference resolves to its chunk.
    pub fn resolve_reference(&self) -> (r: Vec<PrimaryResolveResult>)
        ensures
            r@ == seq![PrimaryResolveResult::Chunk(self.chunk)],
    {
        let mut primary: Vec<PrimaryResolveResult> = Vec::new();
        primary.push(PrimaryResolveResult::Chunk(self.chunk));
        assert(primary@ =~= seq![PrimaryResolveResult::Chunk(self.chunk)]);
        primary
    }

    pub fn is_loaded_in_parallel(&self) -> (r: bool)
        ensures
            r == self.parallel,
    {
        self.parallel
    }

    /// The reference as a record of the graph: it cannot be asked how to
    /// chunk an asset, it says whether its chunk is loaded in parallel, and
    /// it resolves to its chunk.
    pub fn record(&self) -> (r: AssetReference)
        ensures
            r.chunkable is None,
            r.parallel == Some(ParallelChunkReference { loaded_in_parallel: self.parallel }),
            r.primary@ == seq![PrimaryResolveResult::Chunk(self.chunk)],
    {
        AssetReference {
            chunkable: None,
            parallel: Some(ParallelChunkReference { loaded_in_parallel: self.parallel }),
            primary: self.resolve_reference(),
        }
    }

    /// The words `chunk` and the ident of the asset of the chunk.
    pub fn to_string(&self, graph: &AssetGraph) -> (r: String)
        ensures
            r@ == "chunk "@ + ident_of(graph, self.chunk.asset),
    {
        let mut text = String::from_str("chunk ");
        text.append(ident(graph, self.chunk.asset));
        text
    }
}

/// A reference to the chunks of a [`ChunkGroup`].
#[derive(Debug, PartialEq, Eq)]
pub struct ChunkGroupReference {
    pub chunk_group: ChunkGroup,
}

/// The chunks as primary results of a reference.
pub open spec fn chunks_as_primary(chunks: Seq<Chunk>) -> Seq<PrimaryResolveResult> {
    Seq::new(chunks.len(), |i: int| PrimaryResolveResult::Chunk(chunks[i]))
}

/// The assets that a group puts out as primary results of a reference: the
/// chunks in their order, then the asset that evaluates the entries.
pub open spec fn as_primary(assets: GroupAssetsView) -> Seq<PrimaryResolveResult> {
    match assets.evaluate {
        Some(evaluate) => chunks_as_primary(assets.chunks).push(
            PrimaryResolveResult::EvaluateChunk(evaluate.entry),
        ),
        None => chunks_as_primary(assets.chunks),
    }
}

impl ChunkGroupReference {
    pub fn new(chunk_group: ChunkGroup) -> (r: Self)
        ensures
            r.chunk_group == chunk_group,
    {
        ChunkGroupReference { chunk_group }
    }

    /// The reference resolves to the assets that its group puts out: the
    /// chunks that were generated, and last the asset that evaluates the
    /// entries of the group, where there is one.
    pub fn resolve_reference(&self, assets: &GroupAssets) -> (r: Vec<PrimaryResolveResult>)
        ensures
            r@ == as_primary(assets@),
    {
        let chunks = &assets.chunks;
        let mut primary: Vec<PrimaryResolveResult> = Vec::new();
        let mut i: usize = 0;
        while i < chunks.len()
            invariant
                i <= chunks@.len(),
                primary@ == chunks_as_primary(chunks@.take(i as int)),
            decreases chunks@.len() - i,
        {
            primary.push(PrimaryResolveResult::Chunk(chunks[i]));
            i += 1;
            assert(primary@ =~= chunks_as_primary(chunks@.take(i as int)));
        }
        assert(chunks@.take(chunks@.len() as int) =~= chunks@);
        if let Some(evaluate) = &assets.evaluate {
            primary.push(PrimaryResolveResult::EvaluateChunk(evaluate.entry));
        }
        primary
    }

    /// The words `chunk group` and the name of the group.
    pub fn to_string(&self, graph: &AssetGraph) -> (r: String)
        ensures
            r@ == "chunk group group for "@ + ident_of(graph, self.chunk_group.entry.asset),
    {
        proof {
            reveal_strlit("chunk group ");
            reveal_strlit("group for ");
            reveal_strlit("chunk group group for ");
        }
        let mut text = String::from_str("chunk group ");
        text.append(self.chunk_group.to_string(graph).as_str());
        assert(text@ =~= "chunk group group for "@ + ident_of(
            graph,
            self.chunk_group.entry.asset,
        ));
        text
    }
}

impl ChunkGroup {
    /// The words `group for` and the ident of the asset of the entry chunk.
    pub fn to_string(&self, graph: &AssetGraph) -> (r: String)
        ensures
            r@ == "group for "@ + ident_of(graph, self.entry.asset),
    {
        let mut text = String::from_str("group for ");
        text.append(ident(graph, self.entry.asset));
        text
    }
}

impl ChunkingError {
    /// The error in words, with the ident of the asset that it is about.
    pub fn message(&self, graph: &AssetGraph) -> (r: String)
        ensures
            match *self {
                ChunkingError::NotPlaceable { asset } => r@ == "Asset "@ + ident_of(graph, asset)
                    + " was requested to be placed in the same chunk, but this wasn't possible"@,
                ChunkingError::Failed { .. } => r@ == "A capability of the build failed"@,
            },
    {
        match self {
            ChunkingError::NotPlaceable { asset } => {
                let mut text = String::from_str("Asset ");
                text.append(ident(graph, *asset));
                text.append(
                    " was requested to be placed in the same chunk, but this wasn't possible",
                );
                text
            },
            ChunkingError::Failed { .. } => String::from_str("A capability of the build failed"),
        }
    }
}

} // verus!
